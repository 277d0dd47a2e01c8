//! Board geometry, piece model, and move generation over an oracle.
//!
//! Every query about a position goes through [`Oracle`]: "which slot sits on
//! square `sq`?" and "where is slot `s`?". A concrete [`Position`] always
//! answers; a region of positions may answer [`Blocked`], naming the query it
//! could not decide. The generator is written once against the oracle, and
//! its contracts are stated over the oracle's answer functions.

use vstd::prelude::*;

verus! {

pub type Sq = u8;

pub type SlotId = u8;

#[derive(Clone, Copy, PartialEq, Eq, Structural, Hash, Debug)]
pub enum Color {
    White,
    Black,
}

pub open spec fn flip_spec(c: Color) -> Color {
    match c {
        Color::White => Color::Black,
        Color::Black => Color::White,
    }
}

impl Color {
    pub fn flip(self) -> (r: Color)
        ensures
            r == flip_spec(self),
    {
        match self {
            Color::White => Color::Black,
            Color::Black => Color::White,
        }
    }

    pub fn idx(self) -> (r: usize)
        ensures
            r == (if self == Color::White { 0usize } else { 1usize }),
    {
        match self {
            Color::White => 0,
            Color::Black => 1,
        }
    }
}

/// Flipping a colour twice gives it back, and never gives the same colour.
pub proof fn lemma_flip_involution(c: Color)
    ensures
        flip_spec(flip_spec(c)) == c,
        flip_spec(c) != c,
{
}

#[derive(Clone, Copy, PartialEq, Eq, Structural, Hash, Debug)]
pub enum Kind {
    King,
    Queen,
    Rook,
    Bishop,
    Knight,
}

pub open spec fn letter_spec(k: Kind) -> char {
    match k {
        Kind::King => 'K',
        Kind::Queen => 'Q',
        Kind::Rook => 'R',
        Kind::Bishop => 'B',
        Kind::Knight => 'N',
    }
}

/// The piece named by a letter, in either case.
pub open spec fn parse_kind_spec(c: char) -> Option<Kind> {
    if c == 'K' || c == 'k' {
        Some(Kind::King)
    } else if c == 'Q' || c == 'q' {
        Some(Kind::Queen)
    } else if c == 'R' || c == 'r' {
        Some(Kind::Rook)
    } else if c == 'B' || c == 'b' {
        Some(Kind::Bishop)
    } else if c == 'N' || c == 'n' {
        Some(Kind::Knight)
    } else {
        None
    }
}

pub open spec fn slides_orthogonal_spec(k: Kind) -> bool {
    k == Kind::Queen || k == Kind::Rook
}

pub open spec fn slides_diagonal_spec(k: Kind) -> bool {
    k == Kind::Queen || k == Kind::Bishop
}

impl Kind {
    pub fn letter(self) -> (r: char)
        ensures
            r == letter_spec(self),
    {
        match self {
            Kind::King => 'K',
            Kind::Queen => 'Q',
            Kind::Rook => 'R',
            Kind::Bishop => 'B',
            Kind::Knight => 'N',
        }
    }

    pub fn parse(c: char) -> (r: Option<Kind>)
        ensures
            r == parse_kind_spec(c),
    {
        if c == 'K' || c == 'k' {
            Some(Kind::King)
        } else if c == 'Q' || c == 'q' {
            Some(Kind::Queen)
        } else if c == 'R' || c == 'r' {
            Some(Kind::Rook)
        } else if c == 'B' || c == 'b' {
            Some(Kind::Bishop)
        } else if c == 'N' || c == 'n' {
            Some(Kind::Knight)
        } else {
            None
        }
    }

    fn slides_orthogonal(self) -> (r: bool)
        ensures
            r == slides_orthogonal_spec(self),
    {
        match self {
            Kind::Queen | Kind::Rook => true,
            _ => false,
        }
    }

    fn slides_diagonal(self) -> (r: bool)
        ensures
            r == slides_diagonal_spec(self),
    {
        match self {
            Kind::Queen | Kind::Bishop => true,
            _ => false,
        }
    }
}

/// Parsing a piece's letter gives the piece back.
pub proof fn lemma_parse_letter(k: Kind)
    ensures
        parse_kind_spec(letter_spec(k)) == Some(k),
{
}

// ---------------------------------------------------------------------
// Geometry
// ---------------------------------------------------------------------

pub open spec fn file_of(n: u8, sq: int) -> int {
    sq % (n as int)
}

pub open spec fn rank_of(n: u8, sq: int) -> int {
    sq / (n as int)
}

pub open spec fn on_board(n: u8, f: int, r: int) -> bool {
    0 <= f < n && 0 <= r < n
}

/// The square at file `f`, rank `r`, if on the board.
pub open spec fn sq_spec(n: u8, f: int, r: int) -> Option<Sq> {
    if on_board(n, f, r) {
        Some((r * n + f) as Sq)
    } else {
        None
    }
}

/// The square one step `(df, dr)` away from `sq`, if on the board.
pub open spec fn step_spec(n: u8, sq: int, df: int, dr: int) -> Option<Sq> {
    sq_spec(n, file_of(n, sq) + df, rank_of(n, sq) + dr)
}

/// Files and ranks of on-board squares are recovered from the square.
pub proof fn lemma_coords(n: u8, f: int, r: int)
    requires
        1 <= n <= 8,
        on_board(n, f, r),
    ensures
        0 <= r * n + f < n * n,
        n * n <= 64,
        file_of(n, r * n + f) == f,
        rank_of(n, r * n + f) == r,
        sq_spec(n, f, r) == Some((r * n + f) as Sq),
        (r * n + f) as Sq as int == r * n + f,
{
    assert(0 <= r * n + f < n * n) by (nonlinear_arith)
        requires
            0 <= f < n,
            0 <= r < n,
    ;
    assert(n * n <= 64) by (nonlinear_arith)
        requires
            1 <= n <= 8,
    ;
    vstd::arithmetic::div_mod::lemma_fundamental_div_mod_converse(r * n + f, n as int, r, f);
}

/// An on-board square has on-board coordinates and is rebuilt from them.
pub proof fn lemma_square_coords(n: u8, sq: int)
    requires
        1 <= n <= 8,
        0 <= sq < n * n,
    ensures
        on_board(n, file_of(n, sq), rank_of(n, sq)),
        rank_of(n, sq) * n + file_of(n, sq) == sq,
{
    vstd::arithmetic::div_mod::lemma_fundamental_div_mod(sq, n as int);
    vstd::arithmetic::mul::lemma_mul_is_commutative(sq / (n as int), n as int);
    assert(0 <= sq / (n as int) < n) by (nonlinear_arith)
        requires
            0 <= sq < n * n,
            1 <= n,
    {
        vstd::arithmetic::div_mod::lemma_div_pos_is_pos(sq, n as int);
        vstd::arithmetic::div_mod::lemma_div_is_ordered(sq, n * n - 1, n as int);
    }
    vstd::arithmetic::div_mod::lemma_mod_bound(sq, n as int);
}


// ---------------------------------------------------------------------
// Setup
// ---------------------------------------------------------------------

/// The static part of a problem: board size and the piece slots. Slots are
/// fixed for the life of a search; a captured slot is simply off-board.
#[derive(Clone, Debug)]
pub struct Setup {
    pub n: u8,
    pub slots: Vec<(Color, Kind)>,
}

pub open spec fn is_king_of(x: (Color, Kind), c: Color) -> bool {
    x.0 == c && x.1 == Kind::King
}

/// Exactly one slot holds the king of `c`.
pub open spec fn one_king(slots: Seq<(Color, Kind)>, c: Color) -> bool {
    &&& exists|i: int| 0 <= i < slots.len() && is_king_of(#[trigger] slots[i], c)
    &&& forall|i: int, j: int|
        0 <= i < slots.len() && 0 <= j < slots.len() && is_king_of(#[trigger] slots[i], c)
            && is_king_of(#[trigger] slots[j], c) ==> i == j
}

/// The index of the first king of `c` at or after `i` (the length if none).
pub open spec fn first_king_from(slots: Seq<(Color, Kind)>, c: Color, i: int) -> int
    decreases slots.len() - i,
{
    if i < 0 || i >= slots.len() {
        slots.len() as int
    } else if is_king_of(slots[i], c) {
        i
    } else {
        first_king_from(slots, c, i + 1)
    }
}

pub proof fn lemma_first_king_from(slots: Seq<(Color, Kind)>, c: Color, i: int)
    requires
        0 <= i <= slots.len(),
    ensures
        i <= first_king_from(slots, c, i) <= slots.len(),
        first_king_from(slots, c, i) < slots.len() ==> is_king_of(
            slots[first_king_from(slots, c, i)],
            c,
        ),
        forall|j: int| i <= j < first_king_from(slots, c, i) ==> !is_king_of(#[trigger] slots[j], c),
        (exists|j: int| i <= j < slots.len() && is_king_of(#[trigger] slots[j], c))
            ==> first_king_from(slots, c, i) < slots.len(),
    decreases slots.len() - i,
{
    if i < slots.len() {
        lemma_first_king_from(slots, c, i + 1);
        if exists|j: int| i <= j < slots.len() && is_king_of(#[trigger] slots[j], c) {
            let j = choose|j: int| i <= j < slots.len() && is_king_of(#[trigger] slots[j], c);
            if j > i && !is_king_of(slots[i], c) {
                assert(i + 1 <= j < slots.len() && is_king_of(slots[j], c));
            }
        }
    }
}

/// The slot of the king of `c`.
pub open spec fn king_slot_spec(slots: Seq<(Color, Kind)>, c: Color) -> int {
    first_king_from(slots, c, 0)
}

/// The slots of colour `c` among the first `k`, in increasing order.
pub open spec fn slots_of_upto(slots: Seq<(Color, Kind)>, c: Color, k: int) -> Seq<SlotId>
    decreases k,
{
    if k <= 0 {
        Seq::empty()
    } else if slots[k - 1].0 == c {
        slots_of_upto(slots, c, k - 1).push((k - 1) as SlotId)
    } else {
        slots_of_upto(slots, c, k - 1)
    }
}

pub open spec fn slots_of_spec(slots: Seq<(Color, Kind)>, c: Color) -> Seq<SlotId> {
    slots_of_upto(slots, c, slots.len() as int)
}

/// Every listed slot is below `k`, has colour `c`, and the list is strictly
/// increasing; every slot of colour `c` below `k` is listed.
pub proof fn lemma_slots_of_upto(slots: Seq<(Color, Kind)>, c: Color, k: int)
    requires
        0 <= k <= slots.len() <= 256,
    ensures
        forall|i: int|
            0 <= i < slots_of_upto(slots, c, k).len() ==> (#[trigger] slots_of_upto(slots, c, k)[i])
                < k && slots[slots_of_upto(slots, c, k)[i] as int].0 == c,
        forall|i: int, j: int|
            0 <= i < j < slots_of_upto(slots, c, k).len() ==> #[trigger] slots_of_upto(
                slots,
                c,
                k,
            )[i] < #[trigger] slots_of_upto(slots, c, k)[j],
        forall|s: int|
            0 <= s < k && slots[s].0 == c ==> #[trigger] slots_of_upto(slots, c, k).contains(
                s as SlotId,
            ),
        slots_of_upto(slots, c, k).len() <= k,
    decreases k,
{
    if k > 0 {
        lemma_slots_of_upto(slots, c, k - 1);
        let prev = slots_of_upto(slots, c, k - 1);
        if slots[k - 1].0 == c {
            let cur = prev.push((k - 1) as SlotId);
            assert forall|s: int| 0 <= s < k && slots[s].0 == c implies cur.contains(s as SlotId) by {
                if s < k - 1 {
                    assert(prev.contains(s as SlotId));
                    let w = choose|w: int| 0 <= w < prev.len() && prev[w] == s as SlotId;
                    assert(cur[w] == s as SlotId);
                } else {
                    assert(cur[cur.len() - 1] == s as SlotId);
                }
            }
        }
    }
}

pub open spec fn letters_of(slots: Seq<(Color, Kind)>, idx: Seq<SlotId>) -> Seq<char> {
    idx.map_values(|s: SlotId| letter_spec(slots[s as int].1))
}

/// Which of the eight board symmetries: flip files, flip ranks, transpose.
pub open spec fn sym_coords(n: u8, k: int, f: int, r: int) -> (int, int) {
    let f1 = if k / 4 == 1 { n - 1 - f } else { f };
    let r1 = if (k / 2) % 2 == 1 { n - 1 - r } else { r };
    if k % 2 == 1 {
        (r1, f1)
    } else {
        (f1, r1)
    }
}

/// The image of square `sq` under symmetry `k` (0..8).
pub open spec fn sym_sq(n: u8, k: int, sq: int) -> int {
    let (f, r) = sym_coords(n, k, file_of(n, sq), rank_of(n, sq));
    r * n + f
}


/// The distance between two numbers.
pub open spec fn abs_diff(x: int, y: int) -> int {
    if x >= y {
        x - y
    } else {
        y - x
    }
}

/// `t` and `u` are as far apart as `p` and `q`, files and ranks possibly
/// exchanged: every piece's geometry is kept.
pub open spec fn same_shape(n: u8, p: int, q: int, t: int, u: int) -> bool {
    let df = abs_diff(file_of(n, p), file_of(n, q));
    let dr = abs_diff(rank_of(n, p), rank_of(n, q));
    let ef = abs_diff(file_of(n, t), file_of(n, u));
    let er = abs_diff(rank_of(n, t), rank_of(n, u));
    (ef == df && er == dr) || (ef == dr && er == df)
}

proof fn lemma_sym_square(n: u8, k: int, sq: int)
    requires
        2 <= n <= 8,
        0 <= k < 8,
        0 <= sq < n * n,
    ensures
        0 <= sym_sq(n, k, sq) < n * n,
        file_of(n, sym_sq(n, k, sq)) == sym_coords(n, k, file_of(n, sq), rank_of(n, sq)).0,
        rank_of(n, sym_sq(n, k, sq)) == sym_coords(n, k, file_of(n, sq), rank_of(n, sq)).1,
{
    lemma_square_coords(n, sq);
    let c = sym_coords(n, k, file_of(n, sq), rank_of(n, sq));
    lemma_coords(n, c.0, c.1);
}

/// The eight symmetries are the eight symmetries of the square board: each
/// maps the board onto itself keeping every distance between squares (files
/// and ranks possibly exchanged), no two are the same map (a corner and
/// its neighbour along the first rank already tell them apart), and
/// symmetry 1 is the transpose that exchanges files and ranks.
pub proof fn lemma_symmetries_dihedral(n: u8)
    requires
        2 <= n <= 8,
    ensures
        forall|k: int, sq: int| 0 <= k < 8 && 0 <= sq < n * n ==> 0 <= #[trigger] sym_sq(n, k, sq) < n * n,
        forall|k: int, p: int, q: int|
            0 <= k < 8 && 0 <= p < n * n && 0 <= q < n * n ==> same_shape(n, p, q, #[trigger] sym_sq(n, k, p), #[trigger] sym_sq(n, k, q)),
        forall|k: int, p: int, q: int|
            0 <= k < 8 && 0 <= p < n * n && 0 <= q < n * n && p != q ==> #[trigger] sym_sq(n, k, p) != #[trigger] sym_sq(n, k, q),
        forall|k1: int, k2: int|
            0 <= k1 < k2 < 8 ==> #[trigger] sym_sq(n, k1, 0) != #[trigger] sym_sq(n, k2, 0) || sym_sq(n, k1, 1) != sym_sq(n, k2, 1),
        forall|sq: int| 0 <= sq < n * n ==> #[trigger] sym_sq(n, 1, sq) == file_of(n, sq) * n + rank_of(n, sq),
{
    assert forall|k: int, sq: int| 0 <= k < 8 && 0 <= sq < n * n implies 0 <= #[trigger] sym_sq(n, k, sq) < n * n by {
        lemma_sym_square(n, k, sq);
    }
    assert forall|k: int, p: int, q: int|
        0 <= k < 8 && 0 <= p < n * n && 0 <= q < n * n implies same_shape(n, p, q, #[trigger] sym_sq(n, k, p), #[trigger] sym_sq(n, k, q)) by {
        lemma_sym_square(n, k, p);
        lemma_sym_square(n, k, q);
    }
    assert forall|k: int, p: int, q: int|
        0 <= k < 8 && 0 <= p < n * n && 0 <= q < n * n && p != q implies #[trigger] sym_sq(n, k, p) != #[trigger] sym_sq(n, k, q) by {
        lemma_sym_square(n, k, p);
        lemma_sym_square(n, k, q);
        lemma_square_coords(n, p);
        lemma_square_coords(n, q);
        if file_of(n, p) == file_of(n, q) && rank_of(n, p) == rank_of(n, q) {
            assert(p == rank_of(n, p) * n + file_of(n, p));
            assert(q == rank_of(n, q) * n + file_of(n, q));
        }
    }
    lemma_coords(n, 0, 0);
    lemma_coords(n, 1, 0);
    assert forall|k1: int, k2: int| 0 <= k1 < k2 < 8 implies #[trigger] sym_sq(n, k1, 0) != #[trigger] sym_sq(n, k2, 0) || sym_sq(n, k1, 1) != sym_sq(n, k2, 1) by {
        lemma_sym_square(n, k1, 0);
        lemma_sym_square(n, k2, 0);
        lemma_sym_square(n, k1, 1);
        lemma_sym_square(n, k2, 1);
    }
    assert forall|sq: int| 0 <= sq < n * n implies #[trigger] sym_sq(n, 1, sq) == file_of(n, sq) * n + rank_of(n, sq) by {
        lemma_square_coords(n, sq);
    }
}

impl Setup {
    /// A well-formed setup: a board of 2..=8 files and one king per side.
    pub open spec fn wf(&self) -> bool {
        &&& 2 <= self.n <= 8
        &&& self.slots.len() <= 255
        &&& one_king(self.slots@, Color::White)
        &&& one_king(self.slots@, Color::Black)
    }

    pub open spec fn area_spec(&self) -> int {
        self.n * self.n
    }

    pub open spec fn color_spec(&self, s: int) -> Color {
        self.slots@[s].0
    }

    pub open spec fn kind_spec(&self, s: int) -> Kind {
        self.slots@[s].1
    }

    pub fn area(&self) -> (r: usize)
        ensures
            r == self.n * self.n,
    {
        assert(self.n * self.n <= 255 * 255) by (nonlinear_arith)
            requires
                self.n <= 255,
        ;
        self.n as usize * self.n as usize
    }

    pub fn king_slot(&self, c: Color) -> (r: SlotId)
        requires
            self.wf(),
        ensures
            r == king_slot_spec(self.slots@, c),
            r < self.slots.len(),
            is_king_of(self.slots@[r as int], c),
    {
        proof {
            lemma_first_king_from(self.slots@, c, 0);
        }
        let mut i: usize = 0;
        while i < self.slots.len()
            invariant
                0 <= i <= self.slots.len(),
                self.wf(),
                first_king_from(self.slots@, c, 0) == first_king_from(self.slots@, c, i as int),
                first_king_from(self.slots@, c, 0) < self.slots.len(),
            decreases self.slots.len() - i,
        {
            let (col, k) = self.slots[i];
            if col == c && k == Kind::King {
                return i as SlotId;
            }
            i += 1;
        }
        0
    }

    pub fn slots_of(&self, c: Color) -> (r: Vec<SlotId>)
        requires
            self.slots.len() <= 256,
        ensures
            r@ == slots_of_spec(self.slots@, c),
    {
        let mut out: Vec<SlotId> = Vec::new();
        let mut i: usize = 0;
        while i < self.slots.len()
            invariant
                0 <= i <= self.slots.len() <= 256,
                out@ == slots_of_upto(self.slots@, c, i as int),
            decreases self.slots.len() - i,
        {
            if self.slots[i].0 == c {
                out.push(i as SlotId);
            }
            i += 1;
        }
        out
    }

    pub fn color(&self, s: SlotId) -> (r: Color)
        requires
            s < self.slots.len(),
        ensures
            r == self.color_spec(s as int),
    {
        self.slots[s as usize].0
    }

    pub fn kind(&self, s: SlotId) -> (r: Kind)
        requires
            s < self.slots.len(),
        ensures
            r == self.kind_spec(s as int),
    {
        self.slots[s as usize].1
    }

    /// The material written as white letters, 'v', black letters.
    pub fn name(&self) -> (r: String)
        requires
            self.slots.len() <= 256,
        ensures
            r@ == letters_of(self.slots@, slots_of_spec(self.slots@, Color::White)) + seq!['v']
                + letters_of(self.slots@, slots_of_spec(self.slots@, Color::Black)),
    {
        let mut out = String::new();
        let w = self.slots_of(Color::White);
        let b = self.slots_of(Color::Black);
        proof {
            lemma_slots_of_upto(self.slots@, Color::White, self.slots.len() as int);
            lemma_slots_of_upto(self.slots@, Color::Black, self.slots.len() as int);
        }
        let mut i: usize = 0;
        while i < w.len()
            invariant
                0 <= i <= w.len(),
                w@ == slots_of_spec(self.slots@, Color::White),
                forall|j: int| 0 <= j < w.len() ==> (#[trigger] w@[j]) < self.slots.len(),
                out@ == letters_of(self.slots@, w@.subrange(0, i as int)),
            decreases w.len() - i,
        {
            crate::text::push_char(&mut out, self.kind(w[i]).letter());
            i += 1;
            assert(w@.subrange(0, i as int) == w@.subrange(0, i - 1).push(w@[i - 1]));
        }
        assert(w@.subrange(0, w.len() as int) == w@);
        crate::text::push_char(&mut out, 'v');
        let ghost mid = out@;
        let mut j: usize = 0;
        while j < b.len()
            invariant
                0 <= j <= b.len(),
                b@ == slots_of_spec(self.slots@, Color::Black),
                forall|k: int| 0 <= k < b.len() ==> (#[trigger] b@[k]) < self.slots.len(),
                out@ == mid + letters_of(self.slots@, b@.subrange(0, j as int)),
            decreases b.len() - j,
        {
            crate::text::push_char(&mut out, self.kind(b[j]).letter());
            j += 1;
            assert(b@.subrange(0, j as int) == b@.subrange(0, j - 1).push(b@[j - 1]));
        }
        assert(b@.subrange(0, b.len() as int) == b@);
        out
    }

    pub fn sq(&self, file: i32, rank: i32) -> (r: Option<Sq>)
        ensures
            r == sq_spec(self.n, file as int, rank as int),
    {
        let n = self.n as i32;
        if 0 <= file && file < n && 0 <= rank && rank < n {
            assert(0 <= rank * n + file <= 255 * 255 + 255) by (nonlinear_arith)
                requires
                    0 <= file < n,
                    0 <= rank < n,
                    n <= 255,
            ;
            Some((rank * n + file) as Sq)
        } else {
            None
        }
    }

    pub fn file_rank(&self, sq: Sq) -> (r: (i32, i32))
        requires
            self.n > 0,
        ensures
            r.0 == file_of(self.n, sq as int),
            r.1 == rank_of(self.n, sq as int),
    {
        ((sq % self.n) as i32, (sq / self.n) as i32)
    }

    pub fn step(&self, sq: Sq, df: i32, dr: i32) -> (r: Option<Sq>)
        requires
            self.n > 0,
            df <= i32::MAX - 256,
            dr <= i32::MAX - 256,
        ensures
            r == step_spec(self.n, sq as int, df as int, dr as int),
    {
        let (f, r) = self.file_rank(sq);
        self.sq(f + df, r + dr)
    }

    /// Algebraic name: file letter, then rank number counted from 1.
    pub fn sq_name(&self, sq: Sq) -> (r: String)
        requires
            1 <= self.n <= 159,
        ensures
            r@ == seq![(97 + file_of(self.n, sq as int)) as char] + crate::text::decimal(
                (rank_of(self.n, sq as int) + 1) as nat,
            ),
    {
        let (f, r) = self.file_rank(sq);
        let mut out = String::new();
        crate::text::push_char(&mut out, ((97u8 + f as u8) as char));
        crate::text::push_decimal(&mut out, (r + 1) as u32);
        out
    }

    /// The 8 symmetries of the square board (pawnless chess), as square maps:
    /// map `k` sends each square to [`sym_sq`] of it.
    pub fn symmetries(&self) -> (out: Vec<Vec<Sq>>)
        requires
            self.wf(),
        ensures
            out.len() == 8,
            forall|k: int| 0 <= k < 8 ==> (#[trigger] out@[k]).len() == self.area_spec(),
            forall|k: int, sq: int|
                0 <= k < 8 && 0 <= sq < self.area_spec() ==> #[trigger] out@[k]@[sq] as int == sym_sq(
                    self.n,
                    k,
                    sq,
                ),
            forall|k: int, p: int, q: int|
                0 <= k < 8 && 0 <= p < self.area_spec() && 0 <= q < self.area_spec() ==> (#[trigger] out@[k]@[p]) < self.area_spec()
                    && same_shape(self.n, p, q, out@[k]@[p] as int, #[trigger] out@[k]@[q] as int),
            forall|k1: int, k2: int| 0 <= k1 < k2 < 8 ==> #[trigger] out@[k1]@[0] != #[trigger] out@[k2]@[0] || out@[k1]@[1] != out@[k2]@[1],
            forall|sq: int| 0 <= sq < self.area_spec() ==> #[trigger] out@[1]@[sq] as int == file_of(self.n, sq) * self.n + rank_of(self.n, sq),
    {
        let n = self.n as i32;
        let area = self.area();
        proof {
            lemma_coords(self.n, 0, 0);
        }
        let mut out: Vec<Vec<Sq>> = Vec::new();
        let mut k: usize = 0;
        while k < 8
            invariant
                0 <= k <= 8,
                self.wf(),
                n == self.n,
                area == self.area_spec(),
                area <= 64,
                out.len() == k,
                forall|kk: int| 0 <= kk < k ==> (#[trigger] out@[kk]).len() == area,
                forall|kk: int, s2: int|
                    0 <= kk < k && 0 <= s2 < area ==> #[trigger] out@[kk]@[s2] as int == sym_sq(self.n, kk, s2),
            decreases 8 - k,
        {
            let flip_f = k / 4 == 1;
            let flip_r = (k / 2) % 2 == 1;
            let transpose = k % 2 == 1;
            let mut map: Vec<Sq> = Vec::new();
            let mut sq: usize = 0;
            while sq < area
                invariant
                    0 <= sq <= area,
                    area == self.area_spec(),
                    area <= 64,
                    self.wf(),
                    n == self.n,
                    k < 8,
                    flip_f == (k / 4 == 1),
                    flip_r == ((k / 2) % 2 == 1),
                    transpose == (k % 2 == 1),
                    map.len() == sq,
                    forall|s: int| 0 <= s < sq ==> #[trigger] map@[s] as int == sym_sq(self.n, k as int, s),
                    out.len() == k,
                    forall|kk: int| 0 <= kk < k ==> (#[trigger] out@[kk]).len() == area,
                    forall|kk: int, s2: int|
                        0 <= kk < k && 0 <= s2 < area ==> #[trigger] out@[kk]@[s2] as int == sym_sq(self.n, kk, s2),
                decreases area - sq,
            {
                proof {
                    lemma_square_coords(self.n, sq as int);
                }
                let (f0, r0) = self.file_rank(sq as Sq);
                let mut f = f0;
                let mut r = r0;
                if flip_f {
                    f = n - 1 - f;
                }
                if flip_r {
                    r = n - 1 - r;
                }
                if transpose {
                    let t = f;
                    f = r;
                    r = t;
                }
                proof {
                    lemma_coords(self.n, f as int, r as int);
                }
                let t = self.sq(f, r).unwrap();
                assert(t as int == sym_sq(self.n, k as int, sq as int));
                map.push(t);
                sq += 1;
            }
            let ghost old_out = out@;
            let ghost m = map@;
            assert(m.len() == area);
            assert(forall|s: int| 0 <= s < area ==> #[trigger] m[s] as int == sym_sq(self.n, k as int, s));
            out.push(map);
            assert forall|kk: int| 0 <= kk < k + 1 implies (#[trigger] out@[kk]).len() == area by {
                if kk < k {
                    assert(out@[kk] == old_out[kk]);
                }
            }
            assert forall|kk: int, s: int| 0 <= kk < k + 1 && 0 <= s < area implies
                #[trigger] out@[kk]@[s] as int == sym_sq(self.n, kk, s) by {
                if kk < k {
                    assert(out@[kk] == old_out[kk]);
                    assert(old_out[kk]@[s] as int == sym_sq(self.n, kk, s));
                } else {
                    assert(out@[kk]@ == m);
                    assert(m[s] as int == sym_sq(self.n, k as int, s));
                }
            }
            k += 1;
        }
        proof {
            lemma_symmetries_dihedral(self.n);
            assert forall|k1: int, k2: int| 0 <= k1 < k2 < 8 implies #[trigger] out@[k1]@[0] != #[trigger] out@[k2]@[0]
                || out@[k1]@[1] != out@[k2]@[1] by {
                assert(self.n * self.n >= 4) by (nonlinear_arith)
                    requires
                        self.n >= 2,
                ;
                assert(out@[k1]@[0] as int == sym_sq(self.n, k1, 0));
                assert(out@[k2]@[0] as int == sym_sq(self.n, k2, 0));
                assert(out@[k1]@[1] as int == sym_sq(self.n, k1, 1));
                assert(out@[k2]@[1] as int == sym_sq(self.n, k2, 1));
                assert(sym_sq(self.n, k1, 0) != sym_sq(self.n, k2, 0) || sym_sq(self.n, k1, 1) != sym_sq(self.n, k2, 1));
            }
        }
        out
    }
}


// ---------------------------------------------------------------------
// Oracles
// ---------------------------------------------------------------------

/// A query the oracle could not answer on the current region.
#[derive(Clone, Copy, PartialEq, Eq, Structural, Hash, Debug)]
pub enum Blocked {
    /// Contents of a square are undecided.
    At(Sq),
    /// Location of a slot is undecided.
    Locate(SlotId),
}

pub type Res<T> = Result<T, Blocked>;

/// What an oracle answers: the occupant of each square, the square of each
/// slot (`None`: captured), or the query it blocks on.
pub type Answers = (spec_fn(Sq) -> Res<Option<SlotId>>, spec_fn(SlotId) -> Res<Option<Sq>>);

/// The source of facts about a position. Answers are a function of the
/// oracle alone; `Log` is where an oracle may record what was asked.
pub trait Oracle {
    type Log;

    spec fn nslots(&self) -> nat;

    spec fn answers(&self) -> Answers;

    spec fn log_ok(&self, log: &Self::Log) -> bool;

    /// Which slot occupies `sq`, if any.
    fn at(&self, log: &mut Self::Log, sq: Sq) -> (r: Res<Option<SlotId>>)
        requires
            self.log_ok(old(log)),
        ensures
            self.log_ok(final(log)),
            r == (self.answers().0)(sq),
    ;

    /// Where slot `s` is; `None` means captured.
    fn locate(&self, log: &mut Self::Log, s: SlotId) -> (r: Res<Option<Sq>>)
        requires
            self.log_ok(old(log)),
            s < self.nslots(),
        ensures
            self.log_ok(final(log)),
            r == (self.answers().1)(s),
    ;
}

/// Answers name slots of the setup and squares of the board.
pub open spec fn answers_fit(setup: &Setup, a: Answers) -> bool {
    &&& forall|q: Sq| #[trigger] (a.0)(q) matches Ok(Some(s)) ==> s < setup.slots.len()
    &&& forall|s: SlotId| #[trigger] (a.1)(s) matches Ok(Some(q)) ==> q < setup.area_spec()
}

/// The oracle describes positions of `setup`.
pub open spec fn fits<O: Oracle>(setup: &Setup, o: &O) -> bool {
    &&& setup.wf()
    &&& o.nslots() == setup.slots.len()
    &&& answers_fit(setup, o.answers())
}

#[derive(Clone, Copy, PartialEq, Eq, Structural, Hash, Debug)]
pub struct Move {
    pub slot: SlotId,
    pub from: Sq,
    pub to: Sq,
    pub capture: Option<SlotId>,
}

/// The answers of `a` after `mv` has been played.
pub open spec fn played(a: Answers, mv: Move) -> Answers {
    (
        |q: Sq|
            if q == mv.to {
                Ok(Some(mv.slot))
            } else if q == mv.from {
                Ok(None)
            } else {
                (a.0)(q)
            },
        |s: SlotId|
            if s == mv.slot {
                Ok(Some(mv.to))
            } else if Some(s) == mv.capture {
                Ok(None)
            } else {
                (a.1)(s)
            },
    )
}

/// An oracle view of `base` after `mv` has been played.
pub struct Played<'a, O: Oracle> {
    pub base: &'a O,
    pub mv: Move,
}

impl<'a, O: Oracle> Oracle for Played<'a, O> {
    type Log = O::Log;

    open spec fn nslots(&self) -> nat {
        self.base.nslots()
    }

    open spec fn answers(&self) -> Answers {
        played(self.base.answers(), self.mv)
    }

    open spec fn log_ok(&self, log: &Self::Log) -> bool {
        self.base.log_ok(log)
    }

    fn at(&self, log: &mut Self::Log, sq: Sq) -> (r: Res<Option<SlotId>>) {
        if sq == self.mv.to {
            Ok(Some(self.mv.slot))
        } else if sq == self.mv.from {
            Ok(None)
        } else {
            self.base.at(log, sq)
        }
    }

    fn locate(&self, log: &mut Self::Log, s: SlotId) -> (r: Res<Option<Sq>>) {
        if s == self.mv.slot {
            Ok(Some(self.mv.to))
        } else if Some(s) == self.mv.capture {
            Ok(None)
        } else {
            self.base.locate(log, s)
        }
    }
}

pub proof fn lemma_played_fits(setup: &Setup, a: Answers, mv: Move)
    requires
        answers_fit(setup, a),
        mv.slot < setup.slots.len(),
        mv.to < setup.area_spec(),
    ensures
        answers_fit(setup, played(a, mv)),
{
}


// ---------------------------------------------------------------------
// Attack detection
// ---------------------------------------------------------------------

/// The eight ray directions: orthogonal ones first, then diagonal ones.
pub open spec fn ray_dir(i: int) -> (int, int) {
    if i == 0 {
        (1, 0)
    } else if i == 1 {
        (-1, 0)
    } else if i == 2 {
        (0, 1)
    } else if i == 3 {
        (0, -1)
    } else if i == 4 {
        (1, 1)
    } else if i == 5 {
        (1, -1)
    } else if i == 6 {
        (-1, 1)
    } else {
        (-1, -1)
    }
}

/// The eight knight jumps.
pub open spec fn knight_dir(i: int) -> (int, int) {
    if i == 0 {
        (1, 2)
    } else if i == 1 {
        (2, 1)
    } else if i == 2 {
        (-1, 2)
    } else if i == 3 {
        (-2, 1)
    } else if i == 4 {
        (1, -2)
    } else if i == 5 {
        (2, -1)
    } else if i == 6 {
        (-1, -2)
    } else {
        (-2, -1)
    }
}

/// An offset of one file and two ranks, or two files and one rank.
pub open spec fn knight_offset(df: int, dr: int) -> bool {
    ||| (df == 1 || df == -1) && (dr == 2 || dr == -2)
    ||| (df == 2 || df == -2) && (dr == 1 || dr == -1)
}

/// `to` is a knight's jump away from `from`.
pub open spec fn knight_jump(n: u8, from: int, to: int) -> bool {
    knight_offset(file_of(n, to) - file_of(n, from), rank_of(n, to) - rank_of(n, from))
}

/// The eight jumps are exactly the eight knight offsets, each listed once.
pub proof fn lemma_knight_dirs()
    ensures
        forall|i: int| 0 <= i < 8 ==> knight_offset((#[trigger] knight_dir(i)).0, knight_dir(i).1),
        forall|i: int, j: int| 0 <= i < j < 8 ==> #[trigger] knight_dir(i) != #[trigger] knight_dir(j),
        forall|df: int, dr: int| #[trigger] knight_offset(df, dr) ==> exists|i: int| 0 <= i < 8 && #[trigger] knight_dir(i) == (df, dr),
{
    assert forall|df: int, dr: int| #[trigger] knight_offset(df, dr) implies exists|i: int| 0 <= i < 8 && #[trigger] knight_dir(i) == (df, dr) by {
        if df == 1 && dr == 2 {
            assert(knight_dir(0) == (df, dr));
        } else if df == 2 && dr == 1 {
            assert(knight_dir(1) == (df, dr));
        } else if df == -1 && dr == 2 {
            assert(knight_dir(2) == (df, dr));
        } else if df == -2 && dr == 1 {
            assert(knight_dir(3) == (df, dr));
        } else if df == 1 && dr == -2 {
            assert(knight_dir(4) == (df, dr));
        } else if df == 2 && dr == -1 {
            assert(knight_dir(5) == (df, dr));
        } else if df == -1 && dr == -2 {
            assert(knight_dir(6) == (df, dr));
        } else {
            assert(knight_dir(7) == (df, dr));
        }
    }
}

proof fn lemma_knight_steps_jump(setup: &Setup, a: Answers, s: SlotId, from: Sq, i: int)
    requires
        setup.wf(),
        from < setup.area_spec(),
    ensures
        step_moves(setup, a, s, from, true, i) matches Ok(ms) ==> forall|k: int|
            0 <= k < ms.len() ==> knight_jump(setup.n, from as int, (#[trigger] ms[k]).to as int) && ms[k].from == from
                && ms[k].slot == s,
    decreases 8 - i,
{
    if 0 <= i < 8 {
        lemma_knight_steps_jump(setup, a, s, from, i + 1);
        lemma_knight_dirs();
        assert(knight_offset(knight_dir(i).0, knight_dir(i).1));
        let f = file_of(setup.n, from as int) + knight_dir(i).0;
        let r = rank_of(setup.n, from as int) + knight_dir(i).1;
        if on_board(setup.n, f, r) {
            lemma_coords(setup.n, f, r);
            match consider_spec(setup, a, s, from, (r * setup.n + f) as Sq) {
                Ok(c) => match step_moves(setup, a, s, from, true, i + 1) {
                    Ok(rest) => {
                        let ms = c.0 + rest;
                        assert forall|k: int| 0 <= k < ms.len() implies knight_jump(setup.n, from as int, (#[trigger] ms[k]).to as int)
                            && ms[k].from == from && ms[k].slot == s by {
                            if k >= c.0.len() {
                                assert(ms[k] == rest[k - c.0.len()]);
                            }
                        }
                    },
                    Err(_) => {},
                },
                Err(_) => {},
            }
        }
    }
}

/// Every move of a knight is a knight's jump from its square.
pub proof fn lemma_knight_moves_jump(setup: &Setup, a: Answers, s: SlotId, from: Sq)
    requires
        setup.wf(),
        (s as int) < setup.slots.len(),
        setup.kind_spec(s as int) == Kind::Knight,
        from < setup.area_spec(),
    ensures
        piece_moves_spec(setup, a, s, from) matches Ok(ms) ==> forall|k: int|
            0 <= k < ms.len() ==> knight_jump(setup.n, from as int, (#[trigger] ms[k]).to as int) && ms[k].from == from
                && ms[k].slot == s,
{
    lemma_knight_steps_jump(setup, a, s, from, 0);
}

/// Some move of `ms` goes to `to`, capturing what the answer names there.
pub open spec fn has_dest(ms: Seq<Move>, to: Sq, ans: Res<Option<SlotId>>) -> bool {
    exists|k: int| 0 <= k < ms.len() && (#[trigger] ms[k]).to == to && ans == Ok::<Option<SlotId>, Blocked>(ms[k].capture)
}

proof fn lemma_knight_steps_reach(setup: &Setup, a: Answers, s: SlotId, from: Sq, to: Sq, i: int, j: int)
    requires
        setup.wf(),
        0 <= i <= j < 8,
        step_spec(setup.n, from as int, knight_dir(j).0, knight_dir(j).1) == Some(to),
        (a.0)(to) == Ok::<Option<SlotId>, Blocked>(None) || ((a.0)(to) matches Ok(Some(t)) && setup.color_spec(t as int)
            != setup.color_spec(s as int)),
    ensures
        step_moves(setup, a, s, from, true, i) matches Ok(ms) ==> has_dest(ms, to, (a.0)(to)),
    decreases 8 - i,
{
    if i < j {
        lemma_knight_steps_reach(setup, a, s, from, to, i + 1, j);
        match step_spec(setup.n, from as int, knight_dir(i).0, knight_dir(i).1) {
            Some(t) => match consider_spec(setup, a, s, from, t) {
                Ok(c) => match step_moves(setup, a, s, from, true, i + 1) {
                    Ok(rest) => {
                        assert(has_dest(rest, to, (a.0)(to)));
                        let k = choose|k: int| 0 <= k < rest.len() && (#[trigger] rest[k]).to == to && (a.0)(to) == Ok::<Option<SlotId>, Blocked>(rest[k].capture);
                        let ms = c.0 + rest;
                        assert(step_moves(setup, a, s, from, true, i) == Ok::<Seq<Move>, Blocked>(ms));
                        assert(ms[c.0.len() + k] == rest[k]);
                        assert(has_dest(ms, to, (a.0)(to)));
                    },
                    Err(_) => {
                        assert(step_moves(setup, a, s, from, true, i) is Err);
                    },
                },
                Err(_) => {
                    assert(step_moves(setup, a, s, from, true, i) is Err);
                },
            },
            None => {
                assert(step_moves(setup, a, s, from, true, i) == step_moves(setup, a, s, from, true, i + 1));
            },
        }
    } else {
        assert(knight_dir(i) == knight_dir(j));
        match consider_spec(setup, a, s, from, to) {
            Ok(c) => {
                assert(c.0.len() == 1 && c.0[0].to == to && (a.0)(to) == Ok::<Option<SlotId>, Blocked>(c.0[0].capture));
                match step_moves(setup, a, s, from, true, i + 1) {
                    Ok(rest) => {
                        let ms = c.0 + rest;
                        assert(step_moves(setup, a, s, from, true, i) == Ok::<Seq<Move>, Blocked>(ms));
                        assert(ms[0] == c.0[0]);
                        assert(has_dest(ms, to, (a.0)(to)));
                    },
                    Err(_) => {
                        assert(step_moves(setup, a, s, from, true, i) is Err);
                    },
                }
            },
            Err(_) => {
                assert(false);
            },
        }
    }
}

/// Every square a knight's jump away that is empty or holds an enemy is a
/// destination of the knight, capturing what stands there.
pub proof fn lemma_knight_moves_complete(setup: &Setup, a: Answers, s: SlotId, from: Sq, to: Sq)
    requires
        setup.wf(),
        (s as int) < setup.slots.len(),
        setup.kind_spec(s as int) == Kind::Knight,
        from < setup.area_spec(),
        to < setup.area_spec(),
        knight_jump(setup.n, from as int, to as int),
        (a.0)(to) == Ok::<Option<SlotId>, Blocked>(None) || ((a.0)(to) matches Ok(Some(t)) && setup.color_spec(t as int)
            != setup.color_spec(s as int)),
    ensures
        piece_moves_spec(setup, a, s, from) matches Ok(ms) ==> has_dest(ms, to, (a.0)(to)),
{
    let n = setup.n;
    lemma_knight_dirs();
    let df = file_of(n, to as int) - file_of(n, from as int);
    let dr = rank_of(n, to as int) - rank_of(n, from as int);
    assert(knight_offset(df, dr));
    let j = choose|j: int| 0 <= j < 8 && #[trigger] knight_dir(j) == (df, dr);
    lemma_square_coords(n, to as int);
    lemma_coords(n, file_of(n, to as int), rank_of(n, to as int));
    assert(step_spec(n, from as int, knight_dir(j).0, knight_dir(j).1) == Some(to));
    lemma_knight_steps_reach(setup, a, s, from, to, 0, j);
}


/// A knight of colour `by` stands on `t`.
pub open spec fn knight_of_on(setup: &Setup, a: Answers, t: Sq, by: Color) -> bool {
    (a.0)(t) matches Ok(Some(s)) && setup.color_spec(s as int) == by && setup.kind_spec(s as int) == Kind::Knight
}

/// Jump `j` from `sq` lands on a knight of colour `by`.
pub open spec fn knight_jump_hits(setup: &Setup, a: Answers, sq: int, by: Color, j: int) -> bool {
    step_spec(setup.n, sq, knight_dir(j).0, knight_dir(j).1) matches Some(t) && knight_of_on(setup, a, t, by)
}

proof fn lemma_knights_scan(setup: &Setup, a: Answers, sq: int, by: Color, i: int)
    requires
        never_blocks(a),
        0 <= i <= 8,
    ensures
        attacked_knights(setup, a, sq, by, i) == Ok::<bool, Blocked>(
            exists|j: int| i <= j < 8 && #[trigger] knight_jump_hits(setup, a, sq, by, j),
        ),
    decreases 8 - i,
{
    if i < 8 {
        lemma_knights_scan(setup, a, sq, by, i + 1);
        match step_spec(setup.n, sq, knight_dir(i).0, knight_dir(i).1) {
            Some(t) => {
                let _ = (a.0)(t);
            },
            None => {},
        }
        if knight_jump_hits(setup, a, sq, by, i) {
            assert(exists|j: int| i <= j < 8 && #[trigger] knight_jump_hits(setup, a, sq, by, j));
        } else {
            assert((exists|j: int| i <= j < 8 && #[trigger] knight_jump_hits(setup, a, sq, by, j)) == (exists|j: int|
                i + 1 <= j < 8 && #[trigger] knight_jump_hits(setup, a, sq, by, j))) by {
                if exists|j: int| i <= j < 8 && #[trigger] knight_jump_hits(setup, a, sq, by, j) {
                    let j = choose|j: int| i <= j < 8 && #[trigger] knight_jump_hits(setup, a, sq, by, j);
                    assert(j != i);
                }
            }
        }
    } else {
        assert(!exists|j: int| i <= j < 8 && #[trigger] knight_jump_hits(setup, a, sq, by, j));
    }
}

/// A square is attacked by the knights of `by` exactly when a knight of
/// `by` stands a knight's jump away from it.
pub proof fn lemma_knight_attacks(setup: &Setup, a: Answers, sq: int, by: Color)
    requires
        setup.wf(),
        never_blocks(a),
        0 <= sq < setup.area_spec(),
    ensures
        attacked_knights(setup, a, sq, by, 0) == Ok::<bool, Blocked>(
            exists|t: Sq| t < setup.area_spec() && knight_jump(setup.n, sq, t as int) && #[trigger] knight_of_on(setup, a, t, by),
        ),
{
    let n = setup.n;
    lemma_knights_scan(setup, a, sq, by, 0);
    lemma_knight_dirs();
    lemma_square_coords(n, sq);
    let e1 = exists|j: int| 0 <= j < 8 && #[trigger] knight_jump_hits(setup, a, sq, by, j);
    let e2 = exists|t: Sq| t < setup.area_spec() && knight_jump(n, sq, t as int) && #[trigger] knight_of_on(setup, a, t, by);
    if e1 {
        let j = choose|j: int| 0 <= j < 8 && #[trigger] knight_jump_hits(setup, a, sq, by, j);
        let t = step_spec(n, sq, knight_dir(j).0, knight_dir(j).1)->Some_0;
        assert(knight_offset(knight_dir(j).0, knight_dir(j).1));
        lemma_coords(n, file_of(n, sq) + knight_dir(j).0, rank_of(n, sq) + knight_dir(j).1);
        assert(knight_of_on(setup, a, t, by));
    }
    if e2 {
        let t = choose|t: Sq| t < setup.area_spec() && knight_jump(n, sq, t as int) && #[trigger] knight_of_on(setup, a, t, by);
        let df = file_of(n, t as int) - file_of(n, sq);
        let dr = rank_of(n, t as int) - rank_of(n, sq);
        assert(knight_offset(df, dr));
        let j = choose|j: int| 0 <= j < 8 && #[trigger] knight_dir(j) == (df, dr);
        lemma_square_coords(n, t as int);
        lemma_coords(n, file_of(n, t as int), rank_of(n, t as int));
        assert(step_spec(n, sq, knight_dir(j).0, knight_dir(j).1) == Some(t));
        assert(knight_jump_hits(setup, a, sq, by, j));
    }
    assert(e1 == e2);
}

fn ray_dir_exec(i: usize) -> (d: (i32, i32))
    requires
        i < 8,
    ensures
        d.0 as int == ray_dir(i as int).0,
        d.1 as int == ray_dir(i as int).1,
{
    if i == 0 {
        (1, 0)
    } else if i == 1 {
        (-1, 0)
    } else if i == 2 {
        (0, 1)
    } else if i == 3 {
        (0, -1)
    } else if i == 4 {
        (1, 1)
    } else if i == 5 {
        (1, -1)
    } else if i == 6 {
        (-1, 1)
    } else {
        (-1, -1)
    }
}

fn knight_dir_exec(i: usize) -> (d: (i32, i32))
    requires
        i < 8,
    ensures
        d.0 as int == knight_dir(i as int).0,
        d.1 as int == knight_dir(i as int).1,
{
    if i == 0 {
        (1, 2)
    } else if i == 1 {
        (2, 1)
    } else if i == 2 {
        (-1, 2)
    } else if i == 3 {
        (-2, 1)
    } else if i == 4 {
        (1, -2)
    } else if i == 5 {
        (2, -1)
    } else if i == 6 {
        (-1, -2)
    } else {
        (-2, -1)
    }
}

pub open spec fn valid_dir(df: int, dr: int) -> bool {
    -1 <= df <= 1 && -1 <= dr <= 1 && !(df == 0 && dr == 0)
}

/// How many more steps fit on the board along `(df, dr)` from `(f, r)`
/// (counted along a coordinate that moves).
pub open spec fn dir_measure(n: u8, f: int, r: int, df: int, dr: int) -> int {
    if df == 1 {
        n - f
    } else if df == -1 {
        f + 1
    } else if dr == 1 {
        n - r
    } else if dr == -1 {
        r + 1
    } else {
        0
    }
}

/// The square at on-board coordinates.
pub open spec fn sq_at(n: u8, f: int, r: int) -> Sq {
    (r * n + f) as Sq
}

/// Does a piece of kind `k` at distance `dist` along a ray attack?
pub open spec fn hits(k: Kind, dist: int, diag: bool) -> bool {
    (dist == 1 && k == Kind::King) || (diag && slides_diagonal_spec(k)) || (!diag
        && slides_orthogonal_spec(k))
}

/// The scan along one ray from `(f, r)`: the first occupied square decides,
/// an attacker of colour `by` that reaches along the ray gives `true`.
pub open spec fn scan_ray(
    setup: &Setup,
    a: Answers,
    f: int,
    r: int,
    df: int,
    dr: int,
    dist: int,
    diag: bool,
    by: Color,
) -> Res<bool>
    decreases dir_measure(setup.n, f, r, df, dr),
{
    if !valid_dir(df, dr) || !on_board(setup.n, f + df, r + dr) {
        Ok(false)
    } else {
        match (a.0)(sq_at(setup.n, f + df, r + dr)) {
            Err(b) => Err(b),
            Ok(Some(s)) => Ok(
                setup.color_spec(s as int) == by && hits(setup.kind_spec(s as int), dist + 1, diag),
            ),
            Ok(None) => scan_ray(setup, a, f + df, r + dr, df, dr, dist + 1, diag, by),
        }
    }
}

/// The rays from `i` on, in order; the first blocked query or hit decides.
pub open spec fn attacked_rays(setup: &Setup, a: Answers, sq: int, by: Color, i: int) -> Res<bool>
    decreases 8 - i,
{
    if i < 0 || i >= 8 {
        Ok(false)
    } else {
        match scan_ray(
            setup,
            a,
            file_of(setup.n, sq),
            rank_of(setup.n, sq),
            ray_dir(i).0,
            ray_dir(i).1,
            0,
            i >= 4,
            by,
        ) {
            Err(b) => Err(b),
            Ok(true) => Ok(true),
            Ok(false) => attacked_rays(setup, a, sq, by, i + 1),
        }
    }
}

/// The knight jumps from `i` on, in order.
pub open spec fn attacked_knights(setup: &Setup, a: Answers, sq: int, by: Color, i: int) -> Res<
    bool,
>
    decreases 8 - i,
{
    if i < 0 || i >= 8 {
        Ok(false)
    } else {
        match step_spec(setup.n, sq, knight_dir(i).0, knight_dir(i).1) {
            None => attacked_knights(setup, a, sq, by, i + 1),
            Some(t) => match (a.0)(t) {
                Err(b) => Err(b),
                Ok(Some(s)) => if setup.color_spec(s as int) == by && setup.kind_spec(s as int)
                    == Kind::Knight {
                    Ok(true)
                } else {
                    attacked_knights(setup, a, sq, by, i + 1)
                },
                Ok(None) => attacked_knights(setup, a, sq, by, i + 1),
            },
        }
    }
}

/// Is `sq` attacked by a piece of colour `by`: the rays first, then the
/// knight jumps, each consulting squares outward from `sq`.
pub open spec fn attacked_spec(setup: &Setup, a: Answers, sq: int, by: Color) -> Res<bool> {
    match attacked_rays(setup, a, sq, by, 0) {
        Err(b) => Err(b),
        Ok(true) => Ok(true),
        Ok(false) => attacked_knights(setup, a, sq, by, 0),
    }
}

/// Is the king of `c` attacked (a captured king is not in check)?
pub open spec fn in_check_spec(setup: &Setup, a: Answers, c: Color) -> Res<bool> {
    match (a.1)(king_slot_spec(setup.slots@, c) as SlotId) {
        Err(b) => Err(b),
        Ok(Some(k)) => attacked_spec(setup, a, k as int, flip_spec(c)),
        Ok(None) => Ok(false),
    }
}

fn scan_ray_exec<O: Oracle>(
    setup: &Setup,
    o: &O,
    log: &mut O::Log,
    sq: Sq,
    df: i32,
    dr: i32,
    diag: bool,
    by: Color,
) -> (r: Res<bool>)
    requires
        fits(setup, o),
        o.log_ok(old(log)),
        sq < setup.area_spec(),
        valid_dir(df as int, dr as int),
    ensures
        o.log_ok(final(log)),
        r == scan_ray(
            setup,
            o.answers(),
            file_of(setup.n, sq as int),
            rank_of(setup.n, sq as int),
            df as int,
            dr as int,
            0,
            diag,
            by,
        ),
{
    let ghost a = o.answers();
    let ghost n = setup.n;
    proof {
        lemma_square_coords(n, sq as int);
    }
    let ghost f0 = file_of(n, sq as int);
    let ghost r0 = rank_of(n, sq as int);
    let mut cur = sq;
    let mut dist: i32 = 0;
    let ghost mut cf = f0;
    let ghost mut cr = r0;
    loop
        invariant
            fits(setup, o),
            o.log_ok(log),
            a == o.answers(),
            n == setup.n,
            f0 == file_of(n, sq as int),
            r0 == rank_of(n, sq as int),
            valid_dir(df as int, dr as int),
            on_board(n, cf, cr),
            cur as int == cr * n + cf,
            0 <= dist,
            dist + dir_measure(n, cf, cr, df as int, dr as int) == dir_measure(
                n,
                f0,
                r0,
                df as int,
                dr as int,
            ),
            dir_measure(n, f0, r0, df as int, dr as int) <= 9,
            scan_ray(setup, a, f0, r0, df as int, dr as int, 0, diag, by) == scan_ray(
                setup,
                a,
                cf,
                cr,
                df as int,
                dr as int,
                dist as int,
                diag,
                by,
            ),
        decreases dir_measure(n, cf, cr, df as int, dr as int),
    {
        proof {
            lemma_coords(n, cf, cr);
        }
        match setup.step(cur, df, dr) {
            None => {
                assert(!on_board(n, cf + df, cr + dr));
                assert(scan_ray(setup, a, cf, cr, df as int, dr as int, dist as int, diag, by)
                    == Ok::<bool, Blocked>(false));
                return Ok(false);
            },
            Some(next) => {
                assert(on_board(n, cf + df, cr + dr));
                proof {
                    lemma_coords(n, cf + df, cr + dr);
                }
                assert(next == sq_at(n, cf + df, cr + dr));
                let ghost d0 = dist as int;
                dist += 1;
                match o.at(log, next) {
                    Err(b) => {
                        assert(scan_ray(setup, a, cf, cr, df as int, dr as int, d0, diag, by)
                            == Err::<bool, Blocked>(b));
                        return Err(b);
                    },
                    Ok(Some(s)) => {
                        if setup.color(s) == by {
                            let k = setup.kind(s);
                            let hit = (dist == 1 && k == Kind::King) || (diag && k.slides_diagonal())
                                || (!diag && k.slides_orthogonal());
                            if hit {
                                return Ok(true);
                            }
                        }
                        return Ok(false);
                    },
                    Ok(None) => {},
                }
                cur = next;
                proof {
                    cf = cf + df;
                    cr = cr + dr;
                }
            },
        }
    }
}

/// Is `sq` attacked by any piece of color `by`? Scans outward from `sq`, so
/// it consults squares, not piece locations: a region can answer this
/// without knowing where every piece is.
pub fn attacked<O: Oracle>(setup: &Setup, o: &O, log: &mut O::Log, sq: Sq, by: Color) -> (r: Res<
    bool,
>)
    requires
        fits(setup, o),
        o.log_ok(old(log)),
        sq < setup.area_spec(),
    ensures
        o.log_ok(final(log)),
        r == attacked_spec(setup, o.answers(), sq as int, by),
{
    let ghost a = o.answers();
    let mut i: usize = 0;
    while i < 8
        invariant
            0 <= i <= 8,
            fits(setup, o),
            o.log_ok(log),
            a == o.answers(),
            sq < setup.area_spec(),
            attacked_rays(setup, a, sq as int, by, 0) == attacked_rays(setup, a, sq as int, by, i as int),
        decreases 8 - i,
    {
        let (df, dr) = ray_dir_exec(i);
        let diag = i >= 4;
        match scan_ray_exec(setup, o, log, sq, df, dr, diag, by) {
            Err(b) => {
                return Err(b);
            },
            Ok(true) => {
                return Ok(true);
            },
            Ok(false) => {},
        }
        i += 1;
    }
    proof {
        lemma_coords(setup.n, 0, 0);
    }
    let mut j: usize = 0;
    while j < 8
        invariant
            0 <= j <= 8,
            fits(setup, o),
            o.log_ok(log),
            a == o.answers(),
            sq < setup.area_spec(),
            attacked_rays(setup, a, sq as int, by, 0) == Ok::<bool, Blocked>(false),
            attacked_knights(setup, a, sq as int, by, 0) == attacked_knights(
                setup,
                a,
                sq as int,
                by,
                j as int,
            ),
        decreases 8 - j,
    {
        let (df, dr) = knight_dir_exec(j);
        match setup.step(sq, df, dr) {
            None => {},
            Some(t) => {
                match o.at(log, t) {
                    Err(b) => {
                        return Err(b);
                    },
                    Ok(Some(s)) => {
                        if setup.color(s) == by && setup.kind(s) == Kind::Knight {
                            return Ok(true);
                        }
                    },
                    Ok(None) => {},
                }
            },
        }
        j += 1;
    }
    Ok(false)
}

pub fn in_check<O: Oracle>(setup: &Setup, o: &O, log: &mut O::Log, c: Color) -> (r: Res<bool>)
    requires
        fits(setup, o),
        o.log_ok(old(log)),
    ensures
        o.log_ok(final(log)),
        r == in_check_spec(setup, o.answers(), c),
{
    let k = setup.king_slot(c);
    match o.locate(log, k)? {
        Some(ksq) => attacked(setup, o, log, ksq, c.flip()),
        None => Ok(false),
    }
}


// ---------------------------------------------------------------------
// Move generation
// ---------------------------------------------------------------------

pub open spec fn res_cat(p: Seq<Move>, r: Res<Seq<Move>>) -> Res<Seq<Move>> {
    match r {
        Ok(x) => Ok(p + x),
        Err(b) => Err(b),
    }
}

pub proof fn lemma_res_cat_assoc(p: Seq<Move>, q: Seq<Move>, r: Res<Seq<Move>>)
    ensures
        res_cat(p, res_cat(q, r)) == res_cat(p + q, r),
        res_cat(p, Ok(Seq::empty())) == Ok::<Seq<Move>, Blocked>(p),
{
    match r {
        Ok(x) => {
            assert(p + (q + x) =~= (p + q) + x);
        },
        Err(_) => {},
    }
    assert(p + Seq::<Move>::empty() =~= p);
}

/// The move of slot `s` from `from` to `to`, if the destination is empty or
/// holds an enemy; and whether a slide continues past `to`.
pub open spec fn consider_spec(setup: &Setup, a: Answers, s: SlotId, from: Sq, to: Sq) -> Res<
    (Seq<Move>, bool),
> {
    match (a.0)(to) {
        Err(b) => Err(b),
        Ok(None) => Ok((seq![Move { slot: s, from, to, capture: None }], true)),
        Ok(Some(t)) => Ok(
            (
                if setup.color_spec(t as int) != setup.color_spec(s as int) {
                    seq![Move { slot: s, from, to, capture: Some(t) }]
                } else {
                    Seq::empty()
                },
                false,
            ),
        ),
    }
}

/// Single steps (king) or jumps (knight) from direction `i` on.
pub open spec fn step_moves(setup: &Setup, a: Answers, s: SlotId, from: Sq, knight: bool, i: int) -> Res<
    Seq<Move>,
>
    decreases 8 - i,
{
    if i < 0 || i >= 8 {
        Ok(Seq::empty())
    } else {
        let d = if knight {
            knight_dir(i)
        } else {
            ray_dir(i)
        };
        match step_spec(setup.n, from as int, d.0, d.1) {
            None => step_moves(setup, a, s, from, knight, i + 1),
            Some(t) => match consider_spec(setup, a, s, from, t) {
                Err(b) => Err(b),
                Ok(c) => res_cat(c.0, step_moves(setup, a, s, from, knight, i + 1)),
            },
        }
    }
}

/// A slide along one ray from `(f, r)` until a blocker or the edge.
pub open spec fn slide_ray(
    setup: &Setup,
    a: Answers,
    s: SlotId,
    from: Sq,
    f: int,
    r: int,
    df: int,
    dr: int,
) -> Res<Seq<Move>>
    decreases dir_measure(setup.n, f, r, df, dr),
{
    if !valid_dir(df, dr) || !on_board(setup.n, f + df, r + dr) {
        Ok(Seq::empty())
    } else {
        match consider_spec(setup, a, s, from, sq_at(setup.n, f + df, r + dr)) {
            Err(b) => Err(b),
            Ok(c) => if c.1 {
                res_cat(c.0, slide_ray(setup, a, s, from, f + df, r + dr, df, dr))
            } else {
                Ok(c.0)
            },
        }
    }
}

/// Slides along rays `i..hi`, in order.
pub open spec fn slide_dirs(setup: &Setup, a: Answers, s: SlotId, from: Sq, i: int, hi: int) -> Res<
    Seq<Move>,
>
    decreases hi - i,
{
    if i < 0 || i >= hi {
        Ok(Seq::empty())
    } else {
        match slide_ray(
            setup,
            a,
            s,
            from,
            file_of(setup.n, from as int),
            rank_of(setup.n, from as int),
            ray_dir(i).0,
            ray_dir(i).1,
        ) {
            Err(b) => Err(b),
            Ok(ms) => res_cat(ms, slide_dirs(setup, a, s, from, i + 1, hi)),
        }
    }
}

/// Pseudo-legal moves of slot `s` from `from` (destination empty or enemy).
pub open spec fn piece_moves_spec(setup: &Setup, a: Answers, s: SlotId, from: Sq) -> Res<Seq<Move>> {
    match setup.kind_spec(s as int) {
        Kind::King => step_moves(setup, a, s, from, false, 0),
        Kind::Knight => step_moves(setup, a, s, from, true, 0),
        Kind::Queen => slide_dirs(setup, a, s, from, 0, 8),
        Kind::Rook => slide_dirs(setup, a, s, from, 0, 4),
        Kind::Bishop => slide_dirs(setup, a, s, from, 4, 8),
    }
}

/// Pseudo-legal moves of the slots `slots[i..]`, in order.
pub open spec fn pseudo_from(setup: &Setup, a: Answers, slots: Seq<SlotId>, i: int) -> Res<Seq<Move>>
    decreases slots.len() - i,
{
    if i < 0 || i >= slots.len() {
        Ok(Seq::empty())
    } else {
        match (a.1)(slots[i]) {
            Err(b) => Err(b),
            Ok(None) => pseudo_from(setup, a, slots, i + 1),
            Ok(Some(from)) => match piece_moves_spec(setup, a, slots[i], from) {
                Err(b) => Err(b),
                Ok(ms) => res_cat(ms, pseudo_from(setup, a, slots, i + 1)),
            },
        }
    }
}

/// The moves of `ms[i..]` after which `stm`'s king is not attacked.
pub open spec fn legal_filter(setup: &Setup, a: Answers, stm: Color, ms: Seq<Move>, i: int) -> Res<
    Seq<Move>,
>
    decreases ms.len() - i,
{
    if i < 0 || i >= ms.len() {
        Ok(Seq::empty())
    } else {
        match in_check_spec(setup, played(a, ms[i]), stm) {
            Err(b) => Err(b),
            Ok(chk) => res_cat(
                if chk {
                    Seq::empty()
                } else {
                    seq![ms[i]]
                },
                legal_filter(setup, a, stm, ms, i + 1),
            ),
        }
    }
}

/// All legal moves for `stm`: its pseudo-legal moves, slot by slot, that do
/// not leave its own king attacked.
pub open spec fn legal_moves_spec(setup: &Setup, a: Answers, stm: Color) -> Res<Seq<Move>> {
    match pseudo_from(setup, a, slots_of_spec(setup.slots@, stm), 0) {
        Err(b) => Err(b),
        Ok(ps) => legal_filter(setup, a, stm, ps, 0),
    }
}

/// A move of slot `s` from `from` to an on-board square.
pub open spec fn move_from(setup: &Setup, m: Move, s: SlotId, from: Sq) -> bool {
    &&& m.slot == s
    &&& m.from == from
    &&& m.to < setup.area_spec()
    &&& m.capture matches Some(c) ==> c < setup.slots.len()
}

pub open spec fn moves_from(setup: &Setup, ms: Seq<Move>, s: SlotId, from: Sq) -> bool {
    forall|k: int| 0 <= k < ms.len() ==> move_from(setup, #[trigger] ms[k], s, from)
}

/// Every move of a slot starts on its square and lands on the board.
pub proof fn lemma_step_moves_from(setup: &Setup, a: Answers, s: SlotId, from: Sq, knight: bool, i: int)
    requires
        setup.wf(),
        answers_fit(setup, a),
    ensures
        step_moves(setup, a, s, from, knight, i) matches Ok(ms) ==> moves_from(setup, ms, s, from),
    decreases 8 - i,
{
    if 0 <= i < 8 {
        lemma_step_moves_from(setup, a, s, from, knight, i + 1);
        let d = if knight {
            knight_dir(i)
        } else {
            ray_dir(i)
        };
        let f = file_of(setup.n, from as int) + d.0;
        let r = rank_of(setup.n, from as int) + d.1;
        if on_board(setup.n, f, r) {
            lemma_coords(setup.n, f, r);
        }
    }
}

pub proof fn lemma_slide_ray_from(
    setup: &Setup,
    a: Answers,
    s: SlotId,
    from: Sq,
    f: int,
    r: int,
    df: int,
    dr: int,
)
    requires
        setup.wf(),
        answers_fit(setup, a),
    ensures
        slide_ray(setup, a, s, from, f, r, df, dr) matches Ok(ms) ==> moves_from(setup, ms, s, from),
    decreases dir_measure(setup.n, f, r, df, dr),
{
    if valid_dir(df, dr) && on_board(setup.n, f + df, r + dr) {
        lemma_coords(setup.n, f + df, r + dr);
        lemma_slide_ray_from(setup, a, s, from, f + df, r + dr, df, dr);
    }
}

pub proof fn lemma_slide_dirs_from(setup: &Setup, a: Answers, s: SlotId, from: Sq, i: int, hi: int)
    requires
        setup.wf(),
        answers_fit(setup, a),
    ensures
        slide_dirs(setup, a, s, from, i, hi) matches Ok(ms) ==> moves_from(setup, ms, s, from),
    decreases hi - i,
{
    if 0 <= i < hi {
        lemma_slide_dirs_from(setup, a, s, from, i + 1, hi);
        lemma_slide_ray_from(
            setup,
            a,
            s,
            from,
            file_of(setup.n, from as int),
            rank_of(setup.n, from as int),
            ray_dir(i).0,
            ray_dir(i).1,
        );
    }
}

pub proof fn lemma_piece_moves_from(setup: &Setup, a: Answers, s: SlotId, from: Sq)
    requires
        setup.wf(),
        answers_fit(setup, a),
    ensures
        piece_moves_spec(setup, a, s, from) matches Ok(ms) ==> moves_from(setup, ms, s, from),
{
    lemma_step_moves_from(setup, a, s, from, false, 0);
    lemma_step_moves_from(setup, a, s, from, true, 0);
    lemma_slide_dirs_from(setup, a, s, from, 0, 8);
    lemma_slide_dirs_from(setup, a, s, from, 0, 4);
    lemma_slide_dirs_from(setup, a, s, from, 4, 8);
}

/// The move agrees with what the oracle answered about its destination:
/// empty, or the enemy it captures.
pub open spec fn sees(setup: &Setup, a: Answers, m: Move) -> bool {
    &&& (a.0)(m.to) == Ok::<Option<SlotId>, Blocked>(m.capture)
    &&& m.capture matches Some(c) ==> setup.color_spec(c as int) != setup.color_spec(m.slot as int)
}

pub open spec fn all_see(setup: &Setup, a: Answers, ms: Seq<Move>) -> bool {
    forall|k: int| 0 <= k < ms.len() ==> sees(setup, a, #[trigger] ms[k])
}

proof fn lemma_step_moves_see(setup: &Setup, a: Answers, s: SlotId, from: Sq, knight: bool, i: int)
    ensures
        step_moves(setup, a, s, from, knight, i) matches Ok(ms) ==> all_see(setup, a, ms),
    decreases 8 - i,
{
    if 0 <= i < 8 {
        lemma_step_moves_see(setup, a, s, from, knight, i + 1);
    }
}

proof fn lemma_slide_ray_see(setup: &Setup, a: Answers, s: SlotId, from: Sq, f: int, r: int, df: int, dr: int)
    ensures
        slide_ray(setup, a, s, from, f, r, df, dr) matches Ok(ms) ==> all_see(setup, a, ms),
    decreases dir_measure(setup.n, f, r, df, dr),
{
    if valid_dir(df, dr) && on_board(setup.n, f + df, r + dr) {
        lemma_slide_ray_see(setup, a, s, from, f + df, r + dr, df, dr);
    }
}

proof fn lemma_slide_dirs_see(setup: &Setup, a: Answers, s: SlotId, from: Sq, i: int, hi: int)
    ensures
        slide_dirs(setup, a, s, from, i, hi) matches Ok(ms) ==> all_see(setup, a, ms),
    decreases hi - i,
{
    if 0 <= i < hi {
        lemma_slide_dirs_see(setup, a, s, from, i + 1, hi);
        lemma_slide_ray_see(
            setup,
            a,
            s,
            from,
            file_of(setup.n, from as int),
            rank_of(setup.n, from as int),
            ray_dir(i).0,
            ray_dir(i).1,
        );
    }
}

/// Every generated move agrees with the oracle about its destination.
pub proof fn lemma_piece_moves_see(setup: &Setup, a: Answers, s: SlotId, from: Sq)
    ensures
        piece_moves_spec(setup, a, s, from) matches Ok(ms) ==> all_see(setup, a, ms),
{
    lemma_step_moves_see(setup, a, s, from, false, 0);
    lemma_step_moves_see(setup, a, s, from, true, 0);
    lemma_slide_dirs_see(setup, a, s, from, 0, 8);
    lemma_slide_dirs_see(setup, a, s, from, 0, 4);
    lemma_slide_dirs_see(setup, a, s, from, 4, 8);
}

/// A valid move of the setup: its slot, destination and capture exist.
pub open spec fn move_ok(setup: &Setup, m: Move) -> bool {
    &&& m.slot < setup.slots.len()
    &&& m.from < setup.area_spec()
    &&& m.to < setup.area_spec()
    &&& m.capture matches Some(c) ==> c < setup.slots.len()
}

pub open spec fn moves_ok(setup: &Setup, ms: Seq<Move>) -> bool {
    forall|k: int| 0 <= k < ms.len() ==> move_ok(setup, #[trigger] ms[k])
}

proof fn lemma_pseudo_ok(setup: &Setup, a: Answers, slots: Seq<SlotId>, i: int)
    requires
        setup.wf(),
        answers_fit(setup, a),
        forall|k: int| 0 <= k < slots.len() ==> (#[trigger] slots[k]) < setup.slots.len(),
    ensures
        pseudo_from(setup, a, slots, i) matches Ok(ms) ==> moves_ok(setup, ms),
    decreases slots.len() - i,
{
    if 0 <= i < slots.len() {
        lemma_pseudo_ok(setup, a, slots, i + 1);
        match (a.1)(slots[i]) {
            Ok(Some(from)) => {
                lemma_piece_moves_from(setup, a, slots[i], from);
                match piece_moves_spec(setup, a, slots[i], from) {
                    Ok(ms) => {
                        match pseudo_from(setup, a, slots, i + 1) {
                            Ok(rest) => {
                                assert forall|k: int| 0 <= k < (ms + rest).len() implies move_ok(
                                    setup,
                                    #[trigger] (ms + rest)[k],
                                ) by {
                                    if k < ms.len() {
                                        assert(move_from(setup, ms[k], slots[i], from));
                                    } else {
                                        assert((ms + rest)[k] == rest[k - ms.len()]);
                                    }
                                }
                            },
                            Err(_) => {},
                        }
                    },
                    Err(_) => {},
                }
            },
            _ => {},
        }
    }
}

pub proof fn lemma_filter_subset(setup: &Setup, a: Answers, stm: Color, ms: Seq<Move>, i: int)
    requires
        0 <= i,
    ensures
        legal_filter(setup, a, stm, ms, i) matches Ok(r) ==> forall|k: int|
            0 <= k < r.len() ==> exists|j: int| i <= j < ms.len() && #[trigger] r[k] == ms[j],
    decreases ms.len() - i,
{
    if i < ms.len() {
        lemma_filter_subset(setup, a, stm, ms, i + 1);
        match in_check_spec(setup, played(a, ms[i]), stm) {
            Ok(chk) => {
                match legal_filter(setup, a, stm, ms, i + 1) {
                    Ok(rest) => {
                        let piece = if chk {
                            Seq::<Move>::empty()
                        } else {
                            seq![ms[i]]
                        };
                        let r = piece + rest;
                        assert forall|k: int| 0 <= k < r.len() implies exists|j: int|
                            i <= j < ms.len() && #[trigger] r[k] == ms[j] by {
                            if k < piece.len() {
                                assert(r[k] == ms[i]);
                            } else {
                                assert(r[k] == rest[k - piece.len()]);
                                let j = choose|j: int| i + 1 <= j < ms.len() && rest[k - piece.len()] == ms[j];
                                assert(r[k] == ms[j]);
                            }
                        }
                    },
                    Err(_) => {},
                }
            },
            Err(_) => {},
        }
    }
}

/// Every legal move is a valid move of the setup.
pub proof fn lemma_legal_moves_ok(setup: &Setup, a: Answers, stm: Color)
    requires
        setup.wf(),
        answers_fit(setup, a),
    ensures
        legal_moves_spec(setup, a, stm) matches Ok(ms) ==> moves_ok(setup, ms),
{
    let slots = slots_of_spec(setup.slots@, stm);
    lemma_slots_of_upto(setup.slots@, stm, setup.slots.len() as int);
    lemma_pseudo_ok(setup, a, slots, 0);
    match pseudo_from(setup, a, slots, 0) {
        Ok(ps) => {
            lemma_filter_subset(setup, a, stm, ps, 0);
            match legal_filter(setup, a, stm, ps, 0) {
                Ok(r) => {
                    assert forall|k: int| 0 <= k < r.len() implies move_ok(setup, #[trigger] r[k]) by {
                        let j = choose|j: int| 0 <= j < ps.len() && r[k] == ps[j];
                        assert(move_ok(setup, ps[j]));
                    }
                },
                Err(_) => {},
            }
        },
        Err(_) => {},
    }
}

/// The move to `to`, if the destination allows it; whether a slide goes on.
fn consider<O: Oracle>(
    setup: &Setup,
    o: &O,
    log: &mut O::Log,
    s: SlotId,
    from: Sq,
    to: Sq,
    out: &mut Vec<Move>,
) -> (r: Res<bool>)
    requires
        fits(setup, o),
        o.log_ok(old(log)),
        s < setup.slots.len(),
    ensures
        o.log_ok(final(log)),
        match consider_spec(setup, o.answers(), s, from, to) {
            Ok(c) => r == Ok::<bool, Blocked>(c.1) && final(out)@ == old(out)@ + c.0,
            Err(b) => r == Err::<bool, Blocked>(b),
        },
{
    match o.at(log, to)? {
        None => {
            out.push(Move { slot: s, from, to, capture: None });
            Ok(true)
        },
        Some(t) => {
            if setup.color(t) != setup.color(s) {
                out.push(Move { slot: s, from, to, capture: Some(t) });
            }
            Ok(false)
        },
    }
}

fn step_moves_exec<O: Oracle>(
    setup: &Setup,
    o: &O,
    log: &mut O::Log,
    s: SlotId,
    from: Sq,
    knight: bool,
    out: &mut Vec<Move>,
) -> (r: Res<()>)
    requires
        fits(setup, o),
        o.log_ok(old(log)),
        s < setup.slots.len(),
    ensures
        o.log_ok(final(log)),
        match step_moves(setup, o.answers(), s, from, knight, 0) {
            Ok(ms) => r == Ok::<(), Blocked>(()) && final(out)@ == old(out)@ + ms,
            Err(b) => r == Err::<(), Blocked>(b),
        },
{
    let ghost a = o.answers();
    let ghost out0 = out@;
    let mut i: usize = 0;
    while i < 8
        invariant
            0 <= i <= 8,
            fits(setup, o),
            o.log_ok(log),
            a == o.answers(),
            out0 == old(out)@,
            s < setup.slots.len(),
            res_cat(out0, step_moves(setup, a, s, from, knight, 0)) == res_cat(
                out@,
                step_moves(setup, a, s, from, knight, i as int),
            ),
        decreases 8 - i,
    {
        let (df, dr) = if knight {
            knight_dir_exec(i)
        } else {
            ray_dir_exec(i)
        };
        let ghost before = out@;
        match setup.step(from, df, dr) {
            None => {},
            Some(t) => {
                let c = consider(setup, o, log, s, from, t, out);
                match c {
                    Err(b) => {
                        return Err(b);
                    },
                    Ok(_) => {},
                }
                proof {
                    let cs = consider_spec(setup, a, s, from, t)->Ok_0;
                    lemma_res_cat_assoc(before, cs.0, step_moves(setup, a, s, from, knight, i + 1));
                }
            },
        }
        i += 1;
    }
    proof {
        lemma_res_cat_assoc(out@, Seq::empty(), Ok(Seq::empty()));
    }
    Ok(())
}

fn slide_ray_exec<O: Oracle>(
    setup: &Setup,
    o: &O,
    log: &mut O::Log,
    s: SlotId,
    from: Sq,
    df: i32,
    dr: i32,
    out: &mut Vec<Move>,
) -> (r: Res<()>)
    requires
        fits(setup, o),
        o.log_ok(old(log)),
        s < setup.slots.len(),
        from < setup.area_spec(),
        valid_dir(df as int, dr as int),
    ensures
        o.log_ok(final(log)),
        match slide_ray(
            setup,
            o.answers(),
            s,
            from,
            file_of(setup.n, from as int),
            rank_of(setup.n, from as int),
            df as int,
            dr as int,
        ) {
            Ok(ms) => r == Ok::<(), Blocked>(()) && final(out)@ == old(out)@ + ms,
            Err(b) => r == Err::<(), Blocked>(b),
        },
{
    let ghost a = o.answers();
    let ghost n = setup.n;
    proof {
        lemma_square_coords(n, from as int);
    }
    let ghost f0 = file_of(n, from as int);
    let ghost r0 = rank_of(n, from as int);
    let ghost out0 = out@;
    let mut cur = from;
    let ghost mut cf = f0;
    let ghost mut cr = r0;
    loop
        invariant
            fits(setup, o),
            o.log_ok(log),
            a == o.answers(),
            n == setup.n,
            out0 == old(out)@,
            s < setup.slots.len(),
            f0 == file_of(n, from as int),
            r0 == rank_of(n, from as int),
            valid_dir(df as int, dr as int),
            on_board(n, cf, cr),
            cur as int == cr * n + cf,
            res_cat(out0, slide_ray(setup, a, s, from, f0, r0, df as int, dr as int)) == res_cat(
                out@,
                slide_ray(setup, a, s, from, cf, cr, df as int, dr as int),
            ),
        decreases dir_measure(n, cf, cr, df as int, dr as int),
    {
        proof {
            lemma_coords(n, cf, cr);
        }
        let ghost before = out@;
        match setup.step(cur, df, dr) {
            None => {
                assert(!on_board(n, cf + df, cr + dr));
                proof {
                    lemma_res_cat_assoc(out@, Seq::empty(), Ok(Seq::empty()));
                }
                return Ok(());
            },
            Some(t) => {
                assert(on_board(n, cf + df, cr + dr));
                proof {
                    lemma_coords(n, cf + df, cr + dr);
                }
                assert(t == sq_at(n, cf + df, cr + dr));
                let cont = consider(setup, o, log, s, from, t, out);
                match cont {
                    Err(b) => {
                        return Err(b);
                    },
                    Ok(false) => {
                        return Ok(());
                    },
                    Ok(true) => {},
                }
                proof {
                    let cs = consider_spec(setup, a, s, from, t)->Ok_0;
                    lemma_res_cat_assoc(
                        before,
                        cs.0,
                        slide_ray(setup, a, s, from, cf + df, cr + dr, df as int, dr as int),
                    );
                }
                cur = t;
                proof {
                    cf = cf + df;
                    cr = cr + dr;
                }
            },
        }
    }
}

fn slide_dirs_exec<O: Oracle>(
    setup: &Setup,
    o: &O,
    log: &mut O::Log,
    s: SlotId,
    from: Sq,
    lo: usize,
    hi: usize,
    out: &mut Vec<Move>,
) -> (r: Res<()>)
    requires
        fits(setup, o),
        o.log_ok(old(log)),
        s < setup.slots.len(),
        from < setup.area_spec(),
        lo <= hi <= 8,
    ensures
        o.log_ok(final(log)),
        match slide_dirs(setup, o.answers(), s, from, lo as int, hi as int) {
            Ok(ms) => r == Ok::<(), Blocked>(()) && final(out)@ == old(out)@ + ms,
            Err(b) => r == Err::<(), Blocked>(b),
        },
{
    let ghost a = o.answers();
    let ghost out0 = out@;
    let mut i = lo;
    while i < hi
        invariant
            lo <= i <= hi <= 8,
            fits(setup, o),
            o.log_ok(log),
            a == o.answers(),
            out0 == old(out)@,
            s < setup.slots.len(),
            from < setup.area_spec(),
            res_cat(out0, slide_dirs(setup, a, s, from, lo as int, hi as int)) == res_cat(
                out@,
                slide_dirs(setup, a, s, from, i as int, hi as int),
            ),
        decreases hi - i,
    {
        let (df, dr) = ray_dir_exec(i);
        let ghost before = out@;
        let c = slide_ray_exec(setup, o, log, s, from, df, dr, out);
        match c {
            Err(b) => {
                return Err(b);
            },
            Ok(_) => {},
        }
        proof {
            let ms = slide_ray(
                setup,
                a,
                s,
                from,
                file_of(setup.n, from as int),
                rank_of(setup.n, from as int),
                ray_dir(i as int).0,
                ray_dir(i as int).1,
            )->Ok_0;
            lemma_res_cat_assoc(before, ms, slide_dirs(setup, a, s, from, i + 1, hi as int));
        }
        i += 1;
    }
    proof {
        lemma_res_cat_assoc(out@, Seq::empty(), Ok(Seq::empty()));
    }
    Ok(())
}

/// Pseudo-legal moves of slot `s` from `from` (destination empty or enemy),
/// appended to `out`.
pub fn piece_moves<O: Oracle>(
    setup: &Setup,
    o: &O,
    log: &mut O::Log,
    s: SlotId,
    from: Sq,
    out: &mut Vec<Move>,
) -> (r: Res<()>)
    requires
        fits(setup, o),
        o.log_ok(old(log)),
        s < setup.slots.len(),
        from < setup.area_spec(),
    ensures
        o.log_ok(final(log)),
        match piece_moves_spec(setup, o.answers(), s, from) {
            Ok(ms) => r == Ok::<(), Blocked>(()) && final(out)@ == old(out)@ + ms,
            Err(b) => r == Err::<(), Blocked>(b),
        },
{
    match setup.kind(s) {
        Kind::King => step_moves_exec(setup, o, log, s, from, false, out),
        Kind::Knight => step_moves_exec(setup, o, log, s, from, true, out),
        Kind::Queen => slide_dirs_exec(setup, o, log, s, from, 0, 8, out),
        Kind::Rook => slide_dirs_exec(setup, o, log, s, from, 0, 4, out),
        Kind::Bishop => slide_dirs_exec(setup, o, log, s, from, 4, 8, out),
    }
}


/// All legal moves for `stm`. Legality = own king not attacked afterwards.
pub fn legal_moves<O: Oracle>(setup: &Setup, o: &O, log: &mut O::Log, stm: Color) -> (r: Res<
    Vec<Move>,
>)
    requires
        fits(setup, o),
        o.log_ok(old(log)),
    ensures
        o.log_ok(final(log)),
        match legal_moves_spec(setup, o.answers(), stm) {
            Ok(ms) => r matches Ok(v) && v@ == ms,
            Err(b) => r == Err::<Vec<Move>, Blocked>(b),
        },
{
    let ghost a = o.answers();
    let slots = setup.slots_of(stm);
    proof {
        lemma_slots_of_upto(setup.slots@, stm, setup.slots.len() as int);
    }
    let mut pseudo: Vec<Move> = Vec::new();
    let mut i: usize = 0;
    while i < slots.len()
        invariant
            0 <= i <= slots.len(),
            fits(setup, o),
            o.log_ok(log),
            a == o.answers(),
            slots@ == slots_of_spec(setup.slots@, stm),
            forall|k: int| 0 <= k < slots.len() ==> (#[trigger] slots@[k]) < setup.slots.len(),
            forall|k: int|
                0 <= k < pseudo.len() ==> (#[trigger] pseudo@[k]).slot < setup.slots.len()
                    && pseudo@[k].to < setup.area_spec(),
            res_cat(Seq::empty(), pseudo_from(setup, a, slots@, 0)) == res_cat(
                pseudo@,
                pseudo_from(setup, a, slots@, i as int),
            ),
        decreases slots.len() - i,
    {
        let s = slots[i];
        let ghost before = pseudo@;
        match o.locate(log, s)? {
            Some(from) => {
                piece_moves(setup, o, log, s, from, &mut pseudo)?;
                proof {
                    lemma_piece_moves_from(setup, a, s, from);
                    let ms = piece_moves_spec(setup, a, s, from)->Ok_0;
                    lemma_res_cat_assoc(before, ms, pseudo_from(setup, a, slots@, i + 1));
                    assert forall|k: int| 0 <= k < pseudo.len() implies (#[trigger] pseudo@[k]).slot
                        < setup.slots.len() && pseudo@[k].to < setup.area_spec() by {
                        if k >= before.len() {
                            assert(pseudo@[k] == ms[k - before.len()]);
                            assert(move_from(setup, ms[k - before.len()], s, from));
                        }
                    }
                }
            },
            None => {},
        }
        i += 1;
    }
    let ghost ps = pseudo@;
    proof {
        lemma_res_cat_assoc(Seq::empty(), Seq::empty(), pseudo_from(setup, a, slots@, 0));
        assert(Seq::<Move>::empty() + Seq::<Move>::empty() =~= Seq::<Move>::empty());
        lemma_res_cat_assoc(pseudo@, Seq::empty(), Ok(Seq::empty()));
        assert(Seq::<Move>::empty() + pseudo@ =~= pseudo@);
    }
    let mut legal: Vec<Move> = Vec::new();
    let mut j: usize = 0;
    while j < pseudo.len()
        invariant
            0 <= j <= pseudo.len(),
            fits(setup, o),
            o.log_ok(log),
            a == o.answers(),
            pseudo@ == ps,
            pseudo_from(setup, a, slots_of_spec(setup.slots@, stm), 0) == Ok::<Seq<Move>, Blocked>(ps),
            forall|k: int|
                0 <= k < pseudo.len() ==> (#[trigger] pseudo@[k]).slot < setup.slots.len()
                    && pseudo@[k].to < setup.area_spec(),
            res_cat(Seq::empty(), legal_filter(setup, a, stm, ps, 0)) == res_cat(
                legal@,
                legal_filter(setup, a, stm, ps, j as int),
            ),
        decreases pseudo.len() - j,
    {
        let mv = pseudo[j];
        proof {
            lemma_played_fits(setup, a, mv);
        }
        let after = Played { base: o, mv };
        let chk = match in_check(setup, &after, log, stm) {
            Err(b) => {
                assert(legal_filter(setup, a, stm, ps, j as int) == Err::<Seq<Move>, Blocked>(b));
                return Err(b);
            },
            Ok(c) => c,
        };
        let ghost before = legal@;
        if !chk {
            legal.push(mv);
        }
        proof {
            let piece = if chk {
                Seq::<Move>::empty()
            } else {
                seq![mv]
            };
            assert(legal@ =~= before + piece);
            lemma_res_cat_assoc(before, piece, legal_filter(setup, a, stm, ps, j + 1));
        }
        j += 1;
    }
    proof {
        lemma_res_cat_assoc(Seq::empty(), Seq::empty(), legal_filter(setup, a, stm, ps, 0));
        assert(Seq::<Move>::empty() + Seq::<Move>::empty() =~= Seq::<Move>::empty());
        lemma_res_cat_assoc(legal@, Seq::empty(), Ok(Seq::empty()));
        match legal_filter(setup, a, stm, ps, 0) {
            Ok(x) => {
                assert(Seq::<Move>::empty() + x =~= x);
            },
            Err(_) => {},
        }
    }
    Ok(legal)
}


// ---------------------------------------------------------------------
// Concrete positions
// ---------------------------------------------------------------------

/// A concrete position: one square (or none, if captured) per slot.
#[derive(Clone, PartialEq, Eq, Hash, Debug)]
pub struct Position {
    pub sqs: Vec<Option<Sq>>,
    pub stm: Color,
}

/// The first slot at or after `i` standing on `q`.
pub open spec fn occ_from(s: Seq<Option<Sq>>, q: Sq, i: int) -> Option<int>
    decreases s.len() - i,
{
    if i < 0 || i >= s.len() {
        None
    } else if s[i] == Some(q) {
        Some(i)
    } else {
        occ_from(s, q, i + 1)
    }
}

pub proof fn lemma_occ_from(s: Seq<Option<Sq>>, q: Sq, i: int)
    requires
        0 <= i,
    ensures
        occ_from(s, q, i) matches Some(k) ==> i <= k < s.len() && s[k] == Some(q) && forall|j: int|
            i <= j < k ==> s[j] != Some(q),
        occ_from(s, q, i) is None ==> forall|j: int| i <= j < s.len() ==> s[j] != Some(q),
    decreases s.len() - i,
{
    if i < s.len() {
        lemma_occ_from(s, q, i + 1);
    }
}

/// The slot standing on `q`: the first one, if several claim it.
pub open spec fn occupant(s: Seq<Option<Sq>>, q: Sq) -> Option<SlotId> {
    match occ_from(s, q, 0) {
        Some(i) => Some(i as SlotId),
        None => None,
    }
}

pub open spec fn position_answers(s: Seq<Option<Sq>>) -> Answers {
    (
        |q: Sq| Ok(occupant(s, q)),
        |k: SlotId|
            Ok(
                if (k as int) < s.len() {
                    s[k as int]
                } else {
                    None
                },
            ),
    )
}

impl Oracle for Position {
    type Log = ();

    open spec fn nslots(&self) -> nat {
        self.sqs@.len()
    }

    open spec fn answers(&self) -> Answers {
        position_answers(self.sqs@)
    }

    open spec fn log_ok(&self, log: &()) -> bool {
        true
    }

    fn at(&self, log: &mut (), sq: Sq) -> (r: Res<Option<SlotId>>) {
        let mut i: usize = 0;
        while i < self.sqs.len()
            invariant
                0 <= i <= self.sqs.len(),
                occ_from(self.sqs@, sq, 0) == occ_from(self.sqs@, sq, i as int),
            decreases self.sqs.len() - i,
        {
            if self.sqs[i] == Some(sq) {
                return Ok(Some(i as SlotId));
            }
            i += 1;
        }
        Ok(None)
    }

    fn locate(&self, log: &mut (), s: SlotId) -> (r: Res<Option<Sq>>) {
        Ok(self.sqs[s as usize])
    }
}

/// Every answer of `a` is given: nothing blocks.
pub open spec fn never_blocks(a: Answers) -> bool {
    &&& forall|q: Sq| #[trigger] (a.0)(q) is Ok
    &&& forall|s: SlotId| #[trigger] (a.1)(s) is Ok
}

/// The result of playing `mv`: the mover on `to`, the captured slot gone,
/// the other side to move.
pub open spec fn play_spec(p: Seq<Option<Sq>>, mv: Move) -> Seq<Option<Sq>> {
    let q = p.update(mv.slot as int, Some(mv.to));
    match mv.capture {
        Some(c) => q.update(c as int, None),
        None => q,
    }
}

/// No two slots share a square.
pub open spec fn distinct_squares(s: Seq<Option<Sq>>) -> bool {
    forall|i: int, j: int|
        0 <= i < j < s.len() ==> (#[trigger] s[i]) is Some ==> s[i] != #[trigger] s[j]
}

/// Both kings on the board, no square shared, and the side not to move not
/// in check.
pub open spec fn is_legal_spec(setup: &Setup, sqs: Seq<Option<Sq>>, stm: Color) -> bool {
    &&& sqs[king_slot_spec(setup.slots@, Color::White)] is Some
    &&& sqs[king_slot_spec(setup.slots@, Color::Black)] is Some
    &&& distinct_squares(sqs)
    &&& in_check_spec(setup, position_answers(sqs), flip_spec(stm)) == Ok::<bool, Blocked>(false)
}

pub open spec fn only_kings_spec(setup: &Setup, s: Seq<Option<Sq>>) -> bool {
    forall|k: int| 0 <= k < s.len() ==> setup.kind_spec(k) == Kind::King || (#[trigger] s[k]) is None
}

impl Position {
    /// A position of `setup`: one entry per slot, every square on the board.
    pub open spec fn wf(&self, setup: &Setup) -> bool {
        &&& self.sqs.len() == setup.slots.len()
        &&& forall|k: int| 0 <= k < self.sqs.len() ==> ((#[trigger] self.sqs@[k]) matches Some(q) ==> q
            < setup.area_spec())
    }

    pub fn play(&self, mv: Move) -> (r: Position)
        requires
            mv.slot < self.sqs.len(),
            mv.capture matches Some(c) ==> c < self.sqs.len(),
        ensures
            r.sqs@ == play_spec(self.sqs@, mv),
            r.stm == flip_spec(self.stm),
    {
        let mut sqs = self.sqs.clone();
        assert(sqs@ == self.sqs@);
        sqs.set(mv.slot as usize, Some(mv.to));
        if let Some(c) = mv.capture {
            sqs.set(c as usize, None);
        }
        Position { sqs, stm: self.stm.flip() }
    }

    /// Basic legality: kings present, no square shared, the side not to move
    /// is not in check (it would have been captured otherwise).
    pub fn is_legal(&self, setup: &Setup) -> (r: bool)
        requires
            setup.wf(),
            self.wf(setup),
        ensures
            r == is_legal_spec(setup, self.sqs@, self.stm),
    {
        self.is_legal_via(setup, self, &mut ())
    }

    /// [`Position::is_legal`], with the check test asked of `o`, an oracle
    /// that answers as this position does.
    pub fn is_legal_via<O: Oracle>(&self, setup: &Setup, o: &O, log: &mut O::Log) -> (r: bool)
        requires
            setup.wf(),
            self.wf(setup),
            o.answers() == self.answers(),
            o.nslots() == self.sqs.len(),
            o.log_ok(old(log)),
        ensures
            o.log_ok(final(log)),
            r == is_legal_spec(setup, self.sqs@, self.stm),
    {
        let wk = setup.king_slot(Color::White);
        let bk = setup.king_slot(Color::Black);
        if self.sqs[wk as usize].is_none() {
            return false;
        }
        if self.sqs[bk as usize].is_none() {
            return false;
        }
        let mut i: usize = 0;
        while i < self.sqs.len()
            invariant
                0 <= i <= self.sqs.len(),
                o.log_ok(log),
                forall|a: int, b: int|
                    0 <= a < i && a < b < self.sqs.len() ==> (#[trigger] self.sqs@[a]) is Some
                        ==> self.sqs@[a] != #[trigger] self.sqs@[b],
            decreases self.sqs.len() - i,
        {
            let mut j: usize = i + 1;
            while j < self.sqs.len()
                invariant
                    0 <= i < j <= self.sqs.len(),
                    o.log_ok(log),
                    forall|a: int, b: int|
                        0 <= a < i && a < b < self.sqs.len() ==> (#[trigger] self.sqs@[a]) is Some
                            ==> self.sqs@[a] != #[trigger] self.sqs@[b],
                    forall|b: int| i < b < j ==> self.sqs@[i as int] is Some ==> self.sqs@[i as int]
                        != #[trigger] self.sqs@[b],
                decreases self.sqs.len() - j,
            {
                if self.sqs[i].is_some() && self.sqs[i] == self.sqs[j] {
                    return false;
                }
                j += 1;
            }
            i += 1;
        }
        proof {
            lemma_position_fits(setup, self);
            lemma_in_check_never_blocks(setup, self.answers(), flip_spec(self.stm));
        }
        let chk = in_check(setup, o, log, self.stm.flip());
        match chk {
            Ok(c) => !c,
            Err(_) => false,
        }
    }

    pub fn only_kings(&self, setup: &Setup) -> (r: bool)
        requires
            self.sqs.len() <= setup.slots.len() <= 255,
        ensures
            r == only_kings_spec(setup, self.sqs@),
    {
        let mut s: usize = 0;
        while s < self.sqs.len()
            invariant
                0 <= s <= self.sqs.len() <= setup.slots.len() <= 255,
                forall|k: int|
                    0 <= k < s ==> setup.kind_spec(k) == Kind::King || (#[trigger] self.sqs@[k]) is None,
            decreases self.sqs.len() - s,
        {
            if !(setup.kind(s as SlotId) == Kind::King || self.sqs[s].is_none()) {
                return false;
            }
            s += 1;
        }
        true
    }

    /// The position with every square sent through `map`.
    pub fn transform(&self, map: &Vec<Sq>) -> (r: Position)
        requires
            forall|k: int| 0 <= k < self.sqs.len() ==> ((#[trigger] self.sqs@[k]) matches Some(q) ==> q
                < map.len()),
        ensures
            r.stm == self.stm,
            r.sqs.len() == self.sqs.len(),
            forall|k: int|
                0 <= k < self.sqs.len() ==> #[trigger] r.sqs@[k] == match self.sqs@[k] {
                    Some(q) => Some(map@[q as int]),
                    None => None,
                },
    {
        let mut sqs: Vec<Option<Sq>> = Vec::new();
        let mut i: usize = 0;
        while i < self.sqs.len()
            invariant
                0 <= i <= self.sqs.len(),
                sqs.len() == i,
                forall|k: int| 0 <= k < self.sqs.len() ==> ((#[trigger] self.sqs@[k]) matches Some(q) ==> q
                    < map.len()),
                forall|k: int|
                    0 <= k < i ==> #[trigger] sqs@[k] == match self.sqs@[k] {
                        Some(q) => Some(map@[q as int]),
                        None => None,
                    },
            decreases self.sqs.len() - i,
        {
            let v = match self.sqs[i] {
                Some(q) => Some(map[q as usize]),
                None => None,
            };
            sqs.push(v);
            i += 1;
        }
        Position { sqs, stm: self.stm }
    }
}

pub proof fn lemma_position_fits(setup: &Setup, p: &Position)
    requires
        setup.wf(),
        p.wf(setup),
    ensures
        fits(setup, p),
        never_blocks(p.answers()),
{
    assert forall|q: Sq| (#[trigger] (p.answers().0)(q)) is Ok && (p.answers().0)(q)->Ok_0 is Some implies
        (p.answers().0)(q)->Ok_0->Some_0 < setup.slots.len() by {
        lemma_occ_from(p.sqs@, q, 0);
    }
}

// ---- a concrete position never blocks ----

/// Every query `a` leaves open is one that `ok` accepts.
pub open spec fn errs_within(a: Answers, ok: spec_fn(Blocked) -> bool) -> bool {
    &&& forall|q: Sq| #[trigger] (a.0)(q) matches Err(b) ==> ok(b)
    &&& forall|s: SlotId| #[trigger] (a.1)(s) matches Err(b) ==> ok(b)
}

/// A played view leaves open no query its base does not.
pub proof fn lemma_played_errs(a: Answers, mv: Move, ok: spec_fn(Blocked) -> bool)
    requires
        errs_within(a, ok),
    ensures
        errs_within(played(a, mv), ok),
{
    let b = played(a, mv);
    assert forall|q: Sq| (#[trigger] (b.0)(q)) is Err implies ok((b.0)(q)->Err_0) by {
        if q != mv.to && q != mv.from {
            assert((a.0)(q) == (b.0)(q));
        }
    }
    assert forall|k: SlotId| (#[trigger] (b.1)(k)) is Err implies ok((b.1)(k)->Err_0) by {
        if k != mv.slot && Some(k) != mv.capture {
            assert((a.1)(k) == (b.1)(k));
        }
    }
}

proof fn lemma_scan_ray_errs(
    setup: &Setup,
    a: Answers,
    ok: spec_fn(Blocked) -> bool,
    f: int,
    r: int,
    df: int,
    dr: int,
    dist: int,
    diag: bool,
    by: Color,
)
    requires
        errs_within(a, ok),
    ensures
        scan_ray(setup, a, f, r, df, dr, dist, diag, by) matches Err(b) ==> ok(b),
    decreases dir_measure(setup.n, f, r, df, dr),
{
    if valid_dir(df, dr) && on_board(setup.n, f + df, r + dr) {
        let _ = (a.0)(sq_at(setup.n, f + df, r + dr));
        lemma_scan_ray_errs(setup, a, ok, f + df, r + dr, df, dr, dist + 1, diag, by);
    }
}

proof fn lemma_attacked_rays_errs(setup: &Setup, a: Answers, ok: spec_fn(Blocked) -> bool, sq: int, by: Color, i: int)
    requires
        errs_within(a, ok),
    ensures
        attacked_rays(setup, a, sq, by, i) matches Err(b) ==> ok(b),
    decreases 8 - i,
{
    if 0 <= i < 8 {
        lemma_scan_ray_errs(
            setup,
            a,
            ok,
            file_of(setup.n, sq),
            rank_of(setup.n, sq),
            ray_dir(i).0,
            ray_dir(i).1,
            0,
            i >= 4,
            by,
        );
        lemma_attacked_rays_errs(setup, a, ok, sq, by, i + 1);
    }
}

proof fn lemma_attacked_knights_errs(setup: &Setup, a: Answers, ok: spec_fn(Blocked) -> bool, sq: int, by: Color, i: int)
    requires
        errs_within(a, ok),
    ensures
        attacked_knights(setup, a, sq, by, i) matches Err(b) ==> ok(b),
    decreases 8 - i,
{
    if 0 <= i < 8 {
        lemma_attacked_knights_errs(setup, a, ok, sq, by, i + 1);
        match step_spec(setup.n, sq, knight_dir(i).0, knight_dir(i).1) {
            Some(t) => {
                let _ = (a.0)(t);
            },
            None => {},
        }
    }
}

pub proof fn lemma_attacked_errs(setup: &Setup, a: Answers, ok: spec_fn(Blocked) -> bool, sq: int, by: Color)
    requires
        errs_within(a, ok),
    ensures
        attacked_spec(setup, a, sq, by) matches Err(b) ==> ok(b),
{
    lemma_attacked_rays_errs(setup, a, ok, sq, by, 0);
    lemma_attacked_knights_errs(setup, a, ok, sq, by, 0);
}

/// Answers `b` give every answer `a` gives: each square `a` answers, and
/// each slot below `nslots` it answers.
pub open spec fn answers_extend(a: Answers, b: Answers, nslots: int) -> bool {
    &&& forall|q: Sq| (#[trigger] (a.0)(q)) is Ok ==> (b.0)(q) == (a.0)(q)
    &&& forall|s: SlotId| (s as int) < nslots && (#[trigger] (a.1)(s)) is Ok ==> (b.1)(s) == (a.1)(s)
}

proof fn lemma_scan_ray_extend(
    setup: &Setup,
    a: Answers,
    b: Answers,
    f: int,
    r: int,
    df: int,
    dr: int,
    dist: int,
    diag: bool,
    by: Color,
)
    requires
        answers_extend(a, b, setup.slots.len() as int),
    ensures
        scan_ray(setup, a, f, r, df, dr, dist, diag, by) is Ok ==> scan_ray(setup, b, f, r, df, dr, dist, diag, by)
            == scan_ray(setup, a, f, r, df, dr, dist, diag, by),
    decreases dir_measure(setup.n, f, r, df, dr),
{
    if valid_dir(df, dr) && on_board(setup.n, f + df, r + dr) {
        let _ = (a.0)(sq_at(setup.n, f + df, r + dr));
        lemma_scan_ray_extend(setup, a, b, f + df, r + dr, df, dr, dist + 1, diag, by);
    }
}

proof fn lemma_attacked_rays_extend(setup: &Setup, a: Answers, b: Answers, sq: int, by: Color, i: int)
    requires
        answers_extend(a, b, setup.slots.len() as int),
    ensures
        attacked_rays(setup, a, sq, by, i) is Ok ==> attacked_rays(setup, b, sq, by, i) == attacked_rays(setup, a, sq, by, i),
    decreases 8 - i,
{
    if 0 <= i < 8 {
        lemma_scan_ray_extend(setup, a, b, file_of(setup.n, sq), rank_of(setup.n, sq), ray_dir(i).0, ray_dir(i).1, 0, i >= 4, by);
        lemma_attacked_rays_extend(setup, a, b, sq, by, i + 1);
    }
}

proof fn lemma_attacked_knights_extend(setup: &Setup, a: Answers, b: Answers, sq: int, by: Color, i: int)
    requires
        answers_extend(a, b, setup.slots.len() as int),
    ensures
        attacked_knights(setup, a, sq, by, i) is Ok ==> attacked_knights(setup, b, sq, by, i) == attacked_knights(setup, a, sq, by, i),
    decreases 8 - i,
{
    if 0 <= i < 8 {
        lemma_attacked_knights_extend(setup, a, b, sq, by, i + 1);
        match step_spec(setup.n, sq, knight_dir(i).0, knight_dir(i).1) {
            Some(t) => {
                let _ = (a.0)(t);
            },
            None => {},
        }
    }
}

/// Check detection that `a` answers, `b` answers the same way when it
/// gives every answer `a` gives.
pub proof fn lemma_in_check_extend(setup: &Setup, a: Answers, b: Answers, c: Color)
    requires
        setup.wf(),
        answers_extend(a, b, setup.slots.len() as int),
    ensures
        in_check_spec(setup, a, c) is Ok ==> in_check_spec(setup, b, c) == in_check_spec(setup, a, c),
{
    let k = king_slot_spec(setup.slots@, c) as SlotId;
    lemma_first_king_from(setup.slots@, c, 0);
    let _ = (a.1)(k);
    match (a.1)(k) {
        Ok(Some(q)) => {
            lemma_attacked_rays_extend(setup, a, b, q as int, flip_spec(c), 0);
            lemma_attacked_knights_extend(setup, a, b, q as int, flip_spec(c), 0);
        },
        _ => {},
    }
}

/// The ray pointing back along ray `i`.
pub open spec fn ray_back(i: int) -> int {
    if i == 0 { 1 } else if i == 1 { 0 } else if i == 2 { 3 } else if i == 3 { 2 } else if i == 4 { 7 } else if i == 5 { 6 } else if i == 6 { 5 } else { 4 }
}

/// The knight jump pointing back along jump `i`.
pub open spec fn knight_back(i: int) -> int {
    if i == 0 { 6 } else if i == 1 { 7 } else if i == 2 { 4 } else if i == 3 { 5 } else if i == 4 { 2 } else if i == 5 { 3 } else if i == 6 { 0 } else { 1 }
}

/// From `(f0, r0)`, `k` steps of `(df, dr)` stay on the board and end at
/// `(f, r)`, every square passed before the last one empty.
pub open spec fn clear_path(setup: &Setup, a: Answers, f0: int, r0: int, df: int, dr: int, k: int, f: int, r: int) -> bool
    decreases k,
{
    if k <= 0 {
        f0 == f && r0 == r
    } else {
        &&& on_board(setup.n, f0 + df, r0 + dr)
        &&& (k > 1 ==> (a.0)(sq_at(setup.n, f0 + df, r0 + dr)) == Ok::<Option<SlotId>, Blocked>(None))
        &&& clear_path(setup, a, f0 + df, r0 + dr, df, dr, k - 1, f, r)
    }
}

/// A clear path one step longer at its far end.
proof fn lemma_clear_path_append(setup: &Setup, a: Answers, f0: int, r0: int, df: int, dr: int, k: int, f: int, r: int)
    requires
        k >= 1,
        clear_path(setup, a, f0, r0, df, dr, k, f, r),
        on_board(setup.n, f + df, r + dr),
        (a.0)(sq_at(setup.n, f, r)) == Ok::<Option<SlotId>, Blocked>(None),
    ensures
        clear_path(setup, a, f0, r0, df, dr, k + 1, f + df, r + dr),
    decreases k,
{
    reveal_with_fuel(clear_path, 3);
    if k > 1 {
        lemma_clear_path_append(setup, a, f0 + df, r0 + dr, df, dr, k - 1, f, r);
    } else {
        assert(clear_path(setup, a, f0 + df, r0 + dr, df, dr, 0, f, r));
        assert(f0 + df == f && r0 + dr == r);
        assert(clear_path(setup, a, f + df, r + dr, df, dr, 0, f + df, r + dr));
        assert(clear_path(setup, a, f0 + df, r0 + dr, df, dr, 1, f + df, r + dr));
    }
}

/// Scanning a clear path meets the piece at its end.
proof fn lemma_scan_clear(
    setup: &Setup,
    a: Answers,
    f0: int,
    r0: int,
    df: int,
    dr: int,
    dist: int,
    diag: bool,
    by: Color,
    k: int,
    f: int,
    r: int,
    s: SlotId,
)
    requires
        valid_dir(df, dr),
        k >= 1,
        clear_path(setup, a, f0, r0, df, dr, k, f, r),
        (a.0)(sq_at(setup.n, f, r)) == Ok::<Option<SlotId>, Blocked>(Some(s)),
    ensures
        scan_ray(setup, a, f0, r0, df, dr, dist, diag, by) == Ok::<bool, Blocked>(
            setup.color_spec(s as int) == by && hits(setup.kind_spec(s as int), dist + k, diag),
        ),
    decreases k,
{
    assert(on_board(setup.n, f0 + df, r0 + dr));
    if k > 1 {
        lemma_scan_clear(setup, a, f0 + df, r0 + dr, df, dr, dist + 1, diag, by, k - 1, f, r, s);
        assert((a.0)(sq_at(setup.n, f0 + df, r0 + dr)) == Ok::<Option<SlotId>, Blocked>(None));
    } else {
        assert(clear_path(setup, a, f0 + df, r0 + dr, df, dr, 0, f, r));
        assert(f0 + df == f && r0 + dr == r);
    }
}

/// Once one ray hits, the ray scan reports an attack.
proof fn lemma_rays_hit(setup: &Setup, a: Answers, sq: int, by: Color, i: int, j: int)
    requires
        never_blocks(a),
        0 <= i <= j < 8,
        scan_ray(setup, a, file_of(setup.n, sq), rank_of(setup.n, sq), ray_dir(j).0, ray_dir(j).1, 0, j >= 4, by)
            == Ok::<bool, Blocked>(true),
    ensures
        attacked_rays(setup, a, sq, by, i) == Ok::<bool, Blocked>(true),
    decreases j - i,
{
    lemma_never_blocks_errs(a);
    lemma_scan_ray_errs(setup, a, no_err(), file_of(setup.n, sq), rank_of(setup.n, sq), ray_dir(i).0, ray_dir(i).1, 0, i >= 4, by);
    if i < j {
        lemma_rays_hit(setup, a, sq, by, i + 1, j);
    }
}

/// Once one jump hits, the knight scan reports an attack.
proof fn lemma_knights_hit(setup: &Setup, a: Answers, sq: int, by: Color, i: int, j: int)
    requires
        never_blocks(a),
        0 <= i <= j < 8,
        step_spec(setup.n, sq, knight_dir(j).0, knight_dir(j).1) matches Some(t) && (a.0)(t) matches Ok(Some(s))
            && setup.color_spec(s as int) == by && setup.kind_spec(s as int) == Kind::Knight,
    ensures
        attacked_knights(setup, a, sq, by, i) == Ok::<bool, Blocked>(true),
    decreases j - i,
{
    if i < j {
        lemma_knights_hit(setup, a, sq, by, i + 1, j);
        match step_spec(setup.n, sq, knight_dir(i).0, knight_dir(i).1) {
            Some(t) => {
                assert((a.0)(t) is Ok);
            },
            None => {},
        }
    }
}

/// The direction of step `j`: a knight jump or a king step.
pub open spec fn step_dir(knight: bool, j: int) -> (int, int) {
    if knight {
        knight_dir(j)
    } else {
        ray_dir(j)
    }
}

/// The destination of every single step or jump is a step of one of the
/// directions from `i` on.
proof fn lemma_step_member(setup: &Setup, a: Answers, s: SlotId, from: Sq, knight: bool, i: int)
    ensures
        step_moves(setup, a, s, from, knight, i) matches Ok(ms) ==> forall|k: int|
            #![trigger ms[k]]
            0 <= k < ms.len() ==> exists|j: int|
                i <= j < 8 && #[trigger] step_spec(
                    setup.n,
                    from as int,
                    step_dir(knight, j).0,
                    step_dir(knight, j).1,
                ) == Some(ms[k].to),
    decreases 8 - i,
{
    if 0 <= i < 8 {
        lemma_step_member(setup, a, s, from, knight, i + 1);
        let d = step_dir(knight, i);
        match step_spec(setup.n, from as int, d.0, d.1) {
            None => {},
            Some(t) => match consider_spec(setup, a, s, from, t) {
                Err(_) => {},
                Ok(c) => match step_moves(setup, a, s, from, knight, i + 1) {
                    Ok(rest) => {
                        let ms = c.0 + rest;
                        assert forall|k: int| #![trigger ms[k]] 0 <= k < ms.len() implies exists|j: int|
                            i <= j < 8 && #[trigger] step_spec(
                                setup.n,
                                from as int,
                                step_dir(knight, j).0,
                                step_dir(knight, j).1,
                            ) == Some(ms[k].to) by {
                            if k < c.0.len() {
                                assert(ms[k] == c.0[k]);
                                assert(step_spec(
                                    setup.n,
                                    from as int,
                                    step_dir(knight, i).0,
                                    step_dir(knight, i).1,
                                ) == Some(ms[k].to));
                            } else {
                                assert(ms[k] == rest[k - c.0.len()]);
                            }
                        }
                    },
                    Err(_) => {},
                },
            },
        }
    }
}

/// A capture along a slide is reached back from its square by a clear
/// path to the slide's start.
proof fn lemma_slide_ray_capture(setup: &Setup, a: Answers, s: SlotId, from: Sq, f: int, r: int, df: int, dr: int)
    requires
        setup.wf(),
        on_board(setup.n, f, r),
    ensures
        slide_ray(setup, a, s, from, f, r, df, dr) matches Ok(ms) ==> forall|k: int|
            0 <= k < ms.len() && (#[trigger] ms[k]).capture is Some ==> exists|kk: int|
                kk >= 1 && #[trigger] clear_path(setup, a, file_of(setup.n, ms[k].to as int), rank_of(setup.n, ms[k].to as int), -df, -dr, kk, f, r),
    decreases dir_measure(setup.n, f, r, df, dr),
{
    reveal_with_fuel(clear_path, 2);
    if valid_dir(df, dr) && on_board(setup.n, f + df, r + dr) {
        lemma_coords(setup.n, f + df, r + dr);
        let t = sq_at(setup.n, f + df, r + dr);
        lemma_slide_ray_capture(setup, a, s, from, f + df, r + dr, df, dr);
        match consider_spec(setup, a, s, from, t) {
            Err(_) => {},
            Ok(c) => {
                if c.1 {
                    match slide_ray(setup, a, s, from, f + df, r + dr, df, dr) {
                        Ok(rest) => {
                            let ms = c.0 + rest;
                            assert forall|k: int| 0 <= k < ms.len() && (#[trigger] ms[k]).capture is Some implies exists|kk: int|
                                kk >= 1 && #[trigger] clear_path(setup, a, file_of(setup.n, ms[k].to as int), rank_of(setup.n, ms[k].to as int), -df, -dr, kk, f, r) by {
                                if k < c.0.len() {
                                    assert(ms[k] == c.0[k]);
                                } else {
                                    assert(ms[k] == rest[k - c.0.len()]);
                                    let kk = choose|kk: int|
                                        kk >= 1 && #[trigger] clear_path(setup, a, file_of(setup.n, rest[k - c.0.len()].to as int), rank_of(setup.n, rest[k - c.0.len()].to as int), -df, -dr, kk, f + df, r + dr);
                                    assert((a.0)(t) == Ok::<Option<SlotId>, Blocked>(None));
                                    lemma_clear_path_append(
                                        setup,
                                        a,
                                        file_of(setup.n, ms[k].to as int),
                                        rank_of(setup.n, ms[k].to as int),
                                        -df,
                                        -dr,
                                        kk,
                                        f + df,
                                        r + dr,
                                    );
                                    assert((f + df) + -df == f && (r + dr) + -dr == r);
                                }
                            }
                        },
                        Err(_) => {},
                    }
                } else {
                    let ms = c.0;
                    assert forall|k: int| 0 <= k < ms.len() && (#[trigger] ms[k]).capture is Some implies exists|kk: int|
                        kk >= 1 && #[trigger] clear_path(setup, a, file_of(setup.n, ms[k].to as int), rank_of(setup.n, ms[k].to as int), -df, -dr, kk, f, r) by {
                        assert(ms[k].to == t);
                        assert(clear_path(setup, a, f, r, -df, -dr, 0, f, r));
                        assert(clear_path(setup, a, f + df, r + dr, -df, -dr, 1, f, r));
                    }
                }
            },
        }
    }
}

/// A capture of a slide along the rays `i..hi` is reached back along one of
/// them by a clear path to the slider.
proof fn lemma_slide_dirs_capture(setup: &Setup, a: Answers, s: SlotId, from: Sq, i: int, hi: int)
    requires
        setup.wf(),
        from < setup.area_spec(),
        hi <= 8,
    ensures
        slide_dirs(setup, a, s, from, i, hi) matches Ok(ms) ==> forall|k: int|
            0 <= k < ms.len() && (#[trigger] ms[k]).capture is Some ==> exists|j: int, kk: int|
                i <= j < hi && kk >= 1 && #[trigger] clear_path(
                    setup,
                    a,
                    file_of(setup.n, ms[k].to as int),
                    rank_of(setup.n, ms[k].to as int),
                    -ray_dir(j).0,
                    -ray_dir(j).1,
                    kk,
                    file_of(setup.n, from as int),
                    rank_of(setup.n, from as int),
                ),
    decreases hi - i,
{
    if 0 <= i < hi {
        lemma_square_coords(setup.n, from as int);
        lemma_slide_dirs_capture(setup, a, s, from, i + 1, hi);
        let f = file_of(setup.n, from as int);
        let r = rank_of(setup.n, from as int);
        lemma_slide_ray_capture(setup, a, s, from, f, r, ray_dir(i).0, ray_dir(i).1);
        match slide_ray(setup, a, s, from, f, r, ray_dir(i).0, ray_dir(i).1) {
            Err(_) => {},
            Ok(ms1) => match slide_dirs(setup, a, s, from, i + 1, hi) {
                Err(_) => {},
                Ok(rest) => {
                    let ms = ms1 + rest;
                    assert forall|k: int| 0 <= k < ms.len() && (#[trigger] ms[k]).capture is Some implies exists|j: int, kk: int|
                        i <= j < hi && kk >= 1 && #[trigger] clear_path(
                            setup,
                            a,
                            file_of(setup.n, ms[k].to as int),
                            rank_of(setup.n, ms[k].to as int),
                            -ray_dir(j).0,
                            -ray_dir(j).1,
                            kk,
                            f,
                            r,
                        ) by {
                        if k < ms1.len() {
                            assert(ms[k] == ms1[k]);
                            let kk = choose|kk: int|
                                kk >= 1 && #[trigger] clear_path(setup, a, file_of(setup.n, ms1[k].to as int), rank_of(setup.n, ms1[k].to as int), -ray_dir(i).0, -ray_dir(i).1, kk, f, r);
                            assert(clear_path(setup, a, file_of(setup.n, ms[k].to as int), rank_of(setup.n, ms[k].to as int), -ray_dir(i).0, -ray_dir(i).1, kk, f, r));
                        } else {
                            assert(ms[k] == rest[k - ms1.len()]);
                        }
                    }
                },
            },
        }
    }
}

/// On a position with distinct squares, the slot standing on a square is
/// the one placed there.
pub proof fn lemma_occupant_of(s: Seq<Option<Sq>>, i: int, q: Sq)
    requires
        distinct_squares(s),
        0 <= i < s.len() <= 256,
        s[i] == Some(q),
    ensures
        occupant(s, q) == Some(i as SlotId),
{
    lemma_occ_from(s, q, 0);
    match occ_from(s, q, 0) {
        Some(k) => {
            if k < i {
                assert(s[k] != s[i]);
            } else if k > i {
                assert(s[i] != s[k]);
            }
        },
        None => {},
    }
}

/// The facts about a piece of a position that its captures rest on.
pub open spec fn piece_of_position(setup: &Setup, sqs: Seq<Option<Sq>>, s: SlotId, from: Sq) -> bool {
    &&& setup.wf()
    &&& sqs.len() == setup.slots.len()
    &&& forall|k: int| 0 <= k < sqs.len() ==> (#[trigger] sqs[k] matches Some(q) ==> q < setup.area_spec())
    &&& distinct_squares(sqs)
    &&& (s as int) < sqs.len()
    &&& sqs[s as int] == Some(from)
}

/// The answers of such a position, and the square of the piece.
proof fn lemma_piece_facts(setup: &Setup, sqs: Seq<Option<Sq>>, s: SlotId, from: Sq)
    requires
        piece_of_position(setup, sqs, s, from),
    ensures
        never_blocks(position_answers(sqs)),
        answers_fit(setup, position_answers(sqs)),
        errs_within(position_answers(sqs), no_err()),
        from < setup.area_spec(),
        on_board(setup.n, file_of(setup.n, from as int), rank_of(setup.n, from as int)),
        sq_at(setup.n, file_of(setup.n, from as int), rank_of(setup.n, from as int)) == from,
        (position_answers(sqs).0)(sq_at(setup.n, file_of(setup.n, from as int), rank_of(setup.n, from as int)))
            == Ok::<Option<SlotId>, Blocked>(Some(s)),
{
    let a = position_answers(sqs);
    assert(never_blocks(a));
    assert(answers_fit(setup, a)) by {
        assert forall|q: Sq| (#[trigger] (a.0)(q) matches Ok(Some(k)) ==> k < setup.slots.len()) by {
            lemma_occ_from(sqs, q, 0);
        }
    }
    lemma_never_blocks_errs(a);
    assert(from < setup.area_spec());
    lemma_square_coords(setup.n, from as int);
    lemma_coords(setup.n, file_of(setup.n, from as int), rank_of(setup.n, from as int));
    lemma_occupant_of(sqs, s as int, from);
}

/// A capture by a king or a knight is an attack on the captured square.
proof fn lemma_capture_steps(setup: &Setup, sqs: Seq<Option<Sq>>, s: SlotId, from: Sq, m: Move, knight: bool)
    requires
        piece_of_position(setup, sqs, s, from),
        step_moves(setup, position_answers(sqs), s, from, knight, 0) matches Ok(pm) && pm.contains(m),
        knight ==> setup.kind_spec(s as int) == Kind::Knight,
        !knight ==> setup.kind_spec(s as int) == Kind::King,
    ensures
        attacked_spec(setup, position_answers(sqs), m.to as int, setup.color_spec(s as int)) == Ok::<bool, Blocked>(true),
{
    let a = position_answers(sqs);
    let n = setup.n;
    let by = setup.color_spec(s as int);
    lemma_piece_facts(setup, sqs, s, from);
    let pm = step_moves(setup, a, s, from, knight, 0)->Ok_0;
    let k = choose|k: int| 0 <= k < pm.len() && pm[k] == m;
    lemma_step_moves_from(setup, a, s, from, knight, 0);
    assert(move_from(setup, pm[k], s, from));
    lemma_square_coords(n, m.to as int);
    let ff = file_of(n, from as int);
    let rf = rank_of(n, from as int);
    let ft = file_of(n, m.to as int);
    let rt = rank_of(n, m.to as int);
    lemma_attacked_rays_errs(setup, a, no_err(), m.to as int, by, 0);
    lemma_step_member(setup, a, s, from, knight, 0);
    let j = choose|j: int| 0 <= j < 8 && #[trigger] step_spec(n, from as int, step_dir(knight, j).0, step_dir(knight, j).1) == Some(pm[k].to);
    let d = step_dir(knight, j);
    lemma_coords(n, ff + d.0, rf + d.1);
    assert(ft == ff + d.0 && rt == rf + d.1);
    if knight {
        let jb = knight_back(j);
        assert(knight_dir(jb).0 == -d.0 && knight_dir(jb).1 == -d.1);
        assert(step_spec(n, m.to as int, knight_dir(jb).0, knight_dir(jb).1) == Some(from));
        lemma_knights_hit(setup, a, m.to as int, by, 0, jb);
    } else {
        let jb = ray_back(j);
        assert(ray_dir(jb).0 == -d.0 && ray_dir(jb).1 == -d.1);
        reveal_with_fuel(clear_path, 2);
        assert(clear_path(setup, a, ft, rt, ray_dir(jb).0, ray_dir(jb).1, 1, ff, rf));
        lemma_scan_clear(setup, a, ft, rt, ray_dir(jb).0, ray_dir(jb).1, 0, jb >= 4, by, 1, ff, rf, s);
        lemma_rays_hit(setup, a, m.to as int, by, 0, jb);
    }
}

/// A capture by a slider is an attack on the captured square.
proof fn lemma_capture_slides(setup: &Setup, sqs: Seq<Option<Sq>>, s: SlotId, from: Sq, m: Move, lo: int, hi: int)
    requires
        piece_of_position(setup, sqs, s, from),
        slide_dirs(setup, position_answers(sqs), s, from, lo, hi) matches Ok(pm) && pm.contains(m),
        m.capture is Some,
        (lo == 0 && hi == 4 && setup.kind_spec(s as int) == Kind::Rook) || (lo == 4 && hi == 8 && setup.kind_spec(s as int)
            == Kind::Bishop) || (lo == 0 && hi == 8 && setup.kind_spec(s as int) == Kind::Queen),
    ensures
        attacked_spec(setup, position_answers(sqs), m.to as int, setup.color_spec(s as int)) == Ok::<bool, Blocked>(true),
{
    let a = position_answers(sqs);
    let n = setup.n;
    let by = setup.color_spec(s as int);
    lemma_piece_facts(setup, sqs, s, from);
    let pm = slide_dirs(setup, a, s, from, lo, hi)->Ok_0;
    let k = choose|k: int| 0 <= k < pm.len() && pm[k] == m;
    let ff = file_of(n, from as int);
    let rf = rank_of(n, from as int);
    let ft = file_of(n, m.to as int);
    let rt = rank_of(n, m.to as int);
    lemma_attacked_rays_errs(setup, a, no_err(), m.to as int, by, 0);
    lemma_slide_dirs_capture(setup, a, s, from, lo, hi);
    assert(pm[k].capture is Some);
    let (j, kk) = choose|j: int, kk: int|
        lo <= j < hi && kk >= 1 && #[trigger] clear_path(setup, a, ft, rt, -ray_dir(j).0, -ray_dir(j).1, kk, ff, rf);
    let jb = ray_back(j);
    assert(ray_dir(jb).0 == -ray_dir(j).0 && ray_dir(jb).1 == -ray_dir(j).1);
    lemma_scan_clear(setup, a, ft, rt, ray_dir(jb).0, ray_dir(jb).1, 0, jb >= 4, by, kk, ff, rf, s);
    lemma_rays_hit(setup, a, m.to as int, by, 0, jb);
}

/// A capture by a piece of a position is an attack on the captured square.
proof fn lemma_capture_attacks(setup: &Setup, sqs: Seq<Option<Sq>>, s: SlotId, from: Sq, m: Move)
    requires
        piece_of_position(setup, sqs, s, from),
        piece_moves_spec(setup, position_answers(sqs), s, from) matches Ok(pm) && pm.contains(m),
        m.capture is Some,
    ensures
        attacked_spec(setup, position_answers(sqs), m.to as int, setup.color_spec(s as int)) == Ok::<bool, Blocked>(true),
{
    match setup.kind_spec(s as int) {
        Kind::King => lemma_capture_steps(setup, sqs, s, from, m, false),
        Kind::Knight => lemma_capture_steps(setup, sqs, s, from, m, true),
        Kind::Rook => lemma_capture_slides(setup, sqs, s, from, m, 0, 4),
        Kind::Bishop => lemma_capture_slides(setup, sqs, s, from, m, 4, 8),
        Kind::Queen => lemma_capture_slides(setup, sqs, s, from, m, 0, 8),
    }
}

/// The moves kept by the filter, each with its check test passed.
proof fn lemma_filter_member(setup: &Setup, a: Answers, stm: Color, ms: Seq<Move>, i: int)
    requires
        0 <= i,
    ensures
        legal_filter(setup, a, stm, ms, i) matches Ok(r) ==> forall|k: int|
            #![trigger r[k]]
            0 <= k < r.len() ==> exists|j: int|
                i <= j < ms.len() && r[k] == #[trigger] ms[j] && in_check_spec(setup, played(a, ms[j]), stm) == Ok::<bool, Blocked>(false),
    decreases ms.len() - i,
{
    if 0 <= i < ms.len() {
        lemma_filter_member(setup, a, stm, ms, i + 1);
        match in_check_spec(setup, played(a, ms[i]), stm) {
            Ok(chk) => match legal_filter(setup, a, stm, ms, i + 1) {
                Ok(rest) => {
                    let piece = if chk {
                        Seq::<Move>::empty()
                    } else {
                        seq![ms[i]]
                    };
                    let r = piece + rest;
                    assert forall|k: int| #![trigger r[k]] 0 <= k < r.len() implies exists|j: int|
                        i <= j < ms.len() && r[k] == #[trigger] ms[j] && in_check_spec(setup, played(a, ms[j]), stm) == Ok::<bool, Blocked>(
                            false,
                        ) by {
                        if k < piece.len() {
                            assert(r[k] == ms[i]);
                        } else {
                            assert(r[k] == rest[k - piece.len()]);
                        }
                    }
                },
                Err(_) => {},
            },
            Err(_) => {},
        }
    }
}

/// Slot `s` standing on `from` has `m` among its moves.
pub open spec fn yields(setup: &Setup, a: Answers, s: SlotId, from: Sq, m: Move) -> bool {
    piece_moves_spec(setup, a, s, from) matches Ok(pm) && pm.contains(m)
}

/// Each pseudo-legal move comes from the moves of a listed slot standing on
/// its origin.
proof fn lemma_pseudo_member(setup: &Setup, a: Answers, slots: Seq<SlotId>, i: int)
    requires
        0 <= i,
        setup.wf(),
        answers_fit(setup, a),
    ensures
        pseudo_from(setup, a, slots, i) matches Ok(ps) ==> forall|k: int|
            #![trigger ps[k]]
            0 <= k < ps.len() ==> exists|j: int|
                i <= j < slots.len() && (a.1)(#[trigger] slots[j]) == Ok::<Option<Sq>, Blocked>(Some(ps[k].from))
                    && yields(setup, a, slots[j], ps[k].from, ps[k]),
    decreases slots.len() - i,
{
    if 0 <= i < slots.len() {
        lemma_pseudo_member(setup, a, slots, i + 1);
        match (a.1)(slots[i]) {
            Ok(Some(from)) => match piece_moves_spec(setup, a, slots[i], from) {
                Ok(pm) => {
                    lemma_piece_moves_from(setup, a, slots[i], from);
                    match pseudo_from(setup, a, slots, i + 1) {
                    Ok(rest) => {
                        let ps = pm + rest;
                        assert forall|k: int| #![trigger ps[k]] 0 <= k < ps.len() implies exists|j: int|
                            i <= j < slots.len() && (a.1)(#[trigger] slots[j]) == Ok::<Option<Sq>, Blocked>(Some(ps[k].from))
                                && yields(setup, a, slots[j], ps[k].from, ps[k]) by {
                            if k < pm.len() {
                                assert(ps[k] == pm[k]);
                                assert(pm.contains(ps[k]));
                                assert(ps[k].from == from);
                            } else {
                                assert(ps[k] == rest[k - pm.len()]);
                            }
                        }
                    },
                    Err(_) => {},
                    }
                },
                Err(_) => {},
            },
            _ => {},
        }
    }
}

/// What a legal move of a position is: a move of a piece of the side to
/// move from its square, onto an empty square or an enemy it attacks, after
/// which its own king is not attacked.
pub proof fn lemma_legal_move_facts(setup: &Setup, sqs: Seq<Option<Sq>>, stm: Color, m: Move)
    requires
        setup.wf(),
        sqs.len() == setup.slots.len(),
        forall|k: int| 0 <= k < sqs.len() ==> (#[trigger] sqs[k] matches Some(q) ==> q < setup.area_spec()),
        distinct_squares(sqs),
        legal_moves_spec(setup, position_answers(sqs), stm) matches Ok(ms) && ms.contains(m),
    ensures
        (m.slot as int) < sqs.len(),
        setup.color_spec(m.slot as int) == stm,
        sqs[m.slot as int] == Some(m.from),
        m.to < setup.area_spec(),
        occupant(sqs, m.to) == m.capture,
        m.capture matches Some(c) ==> (c as int) < sqs.len() && sqs[c as int] == Some(m.to) && setup.color_spec(c as int)
            != stm && attacked_spec(setup, position_answers(sqs), m.to as int, stm) == Ok::<bool, Blocked>(true),
        in_check_spec(setup, played(position_answers(sqs), m), stm) == Ok::<bool, Blocked>(false),
{
    let a = position_answers(sqs);
    let slots = slots_of_spec(setup.slots@, stm);
    let ms = legal_moves_spec(setup, a, stm)->Ok_0;
    let ps = pseudo_from(setup, a, slots, 0)->Ok_0;
    assert(answers_fit(setup, a)) by {
        assert forall|q: Sq| (#[trigger] (a.0)(q) matches Ok(Some(k)) ==> k < setup.slots.len()) by {
            lemma_occ_from(sqs, q, 0);
        }
    }
    lemma_slots_of_upto(setup.slots@, stm, setup.slots.len() as int);
    lemma_pseudo_member(setup, a, slots, 0);
    lemma_filter_member(setup, a, stm, ps, 0);
    lemma_legal_moves_ok(setup, a, stm);
    let k = choose|k: int| 0 <= k < ms.len() && ms[k] == m;
    assert(ms[k] == m);
    let j = choose|j: int| 0 <= j < ps.len() && ms[k] == #[trigger] ps[j] && in_check_spec(setup, played(a, ps[j]), stm)
        == Ok::<bool, Blocked>(false);
    assert(ps[j] == m);
    let t = choose|t: int|
        0 <= t < slots.len() && (a.1)(#[trigger] slots[t]) == Ok::<Option<Sq>, Blocked>(Some(ps[j].from))
            && yields(setup, a, slots[t], ps[j].from, ps[j]);
    let s = slots[t];
    let pm = piece_moves_spec(setup, a, s, m.from)->Ok_0;
    lemma_piece_moves_from(setup, a, s, m.from);
    lemma_piece_moves_see(setup, a, s, m.from);
    let i = choose|i: int| 0 <= i < pm.len() && pm[i] == m;
    assert(move_from(setup, pm[i], s, m.from));
    assert(sees(setup, a, pm[i]));
    assert(move_ok(setup, ms[k]));
    assert(m.slot == s);
    assert((s as int) < sqs.len());
    assert(sqs[s as int] == Some(m.from));
    assert(setup.color_spec(s as int) == stm);
    lemma_occ_from(sqs, m.to, 0);
    if m.capture is Some {
        let c = m.capture->Some_0;
        assert(sqs[c as int] == Some(m.to));
        assert(piece_of_position(setup, sqs, s, m.from));
        lemma_capture_attacks(setup, sqs, s, m.from, m);
    }
}

/// A legal move from a legal position leads to a legal position, with the
/// other side to move.
pub proof fn lemma_successor_legal(setup: &Setup, sqs: Seq<Option<Sq>>, stm: Color, m: Move)
    requires
        setup.wf(),
        sqs.len() == setup.slots.len(),
        forall|k: int| 0 <= k < sqs.len() ==> (#[trigger] sqs[k] matches Some(q) ==> q < setup.area_spec()),
        is_legal_spec(setup, sqs, stm),
        legal_moves_spec(setup, position_answers(sqs), stm) matches Ok(ms) && ms.contains(m),
    ensures
        play_spec(sqs, m).len() == sqs.len(),
        forall|k: int|
            0 <= k < sqs.len() ==> (#[trigger] play_spec(sqs, m)[k] matches Some(q) ==> q < setup.area_spec()),
        is_legal_spec(setup, play_spec(sqs, m), flip_spec(stm)),
{
    let a = position_answers(sqs);
    let p2 = play_spec(sqs, m);
    let len = sqs.len() as int;
    lemma_legal_move_facts(setup, sqs, stm, m);
    lemma_flip_involution(stm);
    let sl = m.slot as int;
    // The capture, if any, is an enemy standing on the destination.
    assert(m.capture matches Some(c) ==> c as int != sl);
    // Who stands where after the move.
    assert forall|i: int| 0 <= i < len implies #[trigger] p2[i] == (if m.capture == Some(i as SlotId) {
        None
    } else if i == sl {
        Some(m.to)
    } else {
        sqs[i]
    }) by {
        if m.capture is Some {
            assert((m.capture->Some_0 as int) < len);
        }
    }
    // Only the captured slot stood on the destination.
    assert forall|i: int| 0 <= i < len && #[trigger] sqs[i] == Some(m.to) implies m.capture == Some(i as SlotId) by {
        lemma_occupant_of(sqs, i, m.to);
    }
    assert(distinct_squares(p2)) by {
        assert forall|i: int, j: int| 0 <= i < j < p2.len() && (#[trigger] p2[i]) is Some implies p2[i] != #[trigger] p2[j] by {
            if p2[j] is Some {
                if i != sl && j != sl {
                    assert(sqs[i] != sqs[j]);
                } else if i == sl {
                    assert(sqs[j] != Some(m.to));
                } else {
                    assert(sqs[i] != Some(m.to));
                }
            }
        }
    }
    // Both kings stay on the board.
    let kw = king_slot_spec(setup.slots@, Color::White);
    let kb = king_slot_spec(setup.slots@, Color::Black);
    lemma_first_king_from(setup.slots@, Color::White, 0);
    lemma_first_king_from(setup.slots@, Color::Black, 0);
    let ko = king_slot_spec(setup.slots@, flip_spec(stm));
    if m.capture == Some(ko as SlotId) {
        lemma_first_king_from(setup.slots@, flip_spec(stm), 0);
        assert(sqs[ko] == Some(m.to));
        assert(in_check_spec(setup, a, flip_spec(stm)) == attacked_spec(setup, a, m.to as int, stm));
        assert(false);
    }
    assert(p2[kw] is Some);
    assert(p2[kb] is Some);
    // The mover's king is not attacked: the position's answers extend those
    // of the move played on the old position.
    let b = position_answers(p2);
    let pa = played(a, m);
    assert(answers_extend(pa, b, len)) by {
        assert forall|q: Sq| (#[trigger] (pa.0)(q)) is Ok implies (b.0)(q) == (pa.0)(q) by {
            lemma_occ_from(p2, q, 0);
            lemma_occ_from(sqs, q, 0);
            if q == m.to {
                lemma_occupant_of(p2, sl, m.to);
            } else if q == m.from {
                if occ_from(p2, q, 0) is Some {
                    let k = occ_from(p2, q, 0)->Some_0;
                    assert(p2[k] == Some(q));
                    assert(sqs[k] == Some(q));
                    assert(sqs[sl] == Some(q));
                    if k < sl {
                        assert(sqs[k] != sqs[sl]);
                    } else if k > sl {
                        assert(sqs[sl] != sqs[k]);
                    }
                }
            } else {
                if occ_from(sqs, q, 0) is Some {
                    let k = occ_from(sqs, q, 0)->Some_0;
                    assert(sqs[k] == Some(q));
                    assert(p2[k] == Some(q));
                    lemma_occupant_of(p2, k, q);
                } else {
                    if occ_from(p2, q, 0) is Some {
                        let k = occ_from(p2, q, 0)->Some_0;
                        assert(p2[k] == Some(q));
                        assert(sqs[k] == Some(q));
                    }
                }
            }
        }
        assert forall|s: SlotId| (s as int) < len && (#[trigger] (pa.1)(s)) is Ok implies (b.1)(s) == (pa.1)(s) by {
            assert(p2[s as int] == (if m.capture == Some(s) {
                None
            } else if s as int == sl {
                Some(m.to)
            } else {
                sqs[s as int]
            }));
        }
    }
    lemma_in_check_extend(setup, pa, b, stm);
    assert(is_legal_spec(setup, p2, flip_spec(stm)));
}

/// Check detection blocks only on a query the oracle itself leaves open.
pub proof fn lemma_in_check_errs(setup: &Setup, a: Answers, ok: spec_fn(Blocked) -> bool, c: Color)
    requires
        errs_within(a, ok),
    ensures
        in_check_spec(setup, a, c) matches Err(b) ==> ok(b),
{
    let k = king_slot_spec(setup.slots@, c) as SlotId;
    let _ = (a.1)(k);
    match (a.1)(k) {
        Ok(Some(q)) => lemma_attacked_errs(setup, a, ok, q as int, flip_spec(c)),
        _ => {},
    }
}

proof fn lemma_step_moves_errs(
    setup: &Setup,
    a: Answers,
    ok: spec_fn(Blocked) -> bool,
    s: SlotId,
    from: Sq,
    knight: bool,
    i: int,
)
    requires
        errs_within(a, ok),
    ensures
        step_moves(setup, a, s, from, knight, i) matches Err(b) ==> ok(b),
    decreases 8 - i,
{
    if 0 <= i < 8 {
        lemma_step_moves_errs(setup, a, ok, s, from, knight, i + 1);
        let d = if knight {
            knight_dir(i)
        } else {
            ray_dir(i)
        };
        match step_spec(setup.n, from as int, d.0, d.1) {
            Some(t) => {
                let _ = (a.0)(t);
            },
            None => {},
        }
    }
}

proof fn lemma_slide_ray_errs(
    setup: &Setup,
    a: Answers,
    ok: spec_fn(Blocked) -> bool,
    s: SlotId,
    from: Sq,
    f: int,
    r: int,
    df: int,
    dr: int,
)
    requires
        errs_within(a, ok),
    ensures
        slide_ray(setup, a, s, from, f, r, df, dr) matches Err(b) ==> ok(b),
    decreases dir_measure(setup.n, f, r, df, dr),
{
    if valid_dir(df, dr) && on_board(setup.n, f + df, r + dr) {
        let _ = (a.0)(sq_at(setup.n, f + df, r + dr));
        lemma_slide_ray_errs(setup, a, ok, s, from, f + df, r + dr, df, dr);
    }
}

proof fn lemma_slide_dirs_errs(
    setup: &Setup,
    a: Answers,
    ok: spec_fn(Blocked) -> bool,
    s: SlotId,
    from: Sq,
    i: int,
    hi: int,
)
    requires
        errs_within(a, ok),
    ensures
        slide_dirs(setup, a, s, from, i, hi) matches Err(b) ==> ok(b),
    decreases hi - i,
{
    if 0 <= i < hi {
        lemma_slide_dirs_errs(setup, a, ok, s, from, i + 1, hi);
        lemma_slide_ray_errs(
            setup,
            a,
            ok,
            s,
            from,
            file_of(setup.n, from as int),
            rank_of(setup.n, from as int),
            ray_dir(i).0,
            ray_dir(i).1,
        );
    }
}

/// Move generation for one piece blocks only on a query the oracle leaves
/// open.
pub proof fn lemma_piece_moves_errs(setup: &Setup, a: Answers, ok: spec_fn(Blocked) -> bool, s: SlotId, from: Sq)
    requires
        errs_within(a, ok),
    ensures
        piece_moves_spec(setup, a, s, from) matches Err(b) ==> ok(b),
{
    lemma_step_moves_errs(setup, a, ok, s, from, false, 0);
    lemma_step_moves_errs(setup, a, ok, s, from, true, 0);
    lemma_slide_dirs_errs(setup, a, ok, s, from, 0, 8);
    lemma_slide_dirs_errs(setup, a, ok, s, from, 0, 4);
    lemma_slide_dirs_errs(setup, a, ok, s, from, 4, 8);
}

proof fn lemma_pseudo_errs(setup: &Setup, a: Answers, ok: spec_fn(Blocked) -> bool, slots: Seq<SlotId>, i: int)
    requires
        errs_within(a, ok),
    ensures
        pseudo_from(setup, a, slots, i) matches Err(b) ==> ok(b),
    decreases slots.len() - i,
{
    if 0 <= i < slots.len() {
        lemma_pseudo_errs(setup, a, ok, slots, i + 1);
        let _ = (a.1)(slots[i]);
        match (a.1)(slots[i]) {
            Ok(Some(from)) => lemma_piece_moves_errs(setup, a, ok, slots[i], from),
            _ => {},
        }
    }
}

/// Legality filtering blocks only on a query the oracle leaves open.
pub proof fn lemma_filter_errs(
    setup: &Setup,
    a: Answers,
    ok: spec_fn(Blocked) -> bool,
    stm: Color,
    ms: Seq<Move>,
    i: int,
)
    requires
        errs_within(a, ok),
    ensures
        legal_filter(setup, a, stm, ms, i) matches Err(b) ==> ok(b),
    decreases ms.len() - i,
{
    if 0 <= i < ms.len() {
        lemma_filter_errs(setup, a, ok, stm, ms, i + 1);
        lemma_played_errs(a, ms[i], ok);
        lemma_in_check_errs(setup, played(a, ms[i]), ok, stm);
    }
}

/// Move generation blocks only on a query the oracle itself leaves open.
pub proof fn lemma_legal_moves_errs(setup: &Setup, a: Answers, ok: spec_fn(Blocked) -> bool, stm: Color)
    requires
        errs_within(a, ok),
    ensures
        legal_moves_spec(setup, a, stm) matches Err(b) ==> ok(b),
{
    lemma_pseudo_errs(setup, a, ok, slots_of_spec(setup.slots@, stm), 0);
    match pseudo_from(setup, a, slots_of_spec(setup.slots@, stm), 0) {
        Ok(ps) => lemma_filter_errs(setup, a, ok, stm, ps, 0),
        Err(_) => {},
    }
}

pub open spec fn no_err() -> spec_fn(Blocked) -> bool {
    |b: Blocked| false
}

proof fn lemma_never_blocks_errs(a: Answers)
    requires
        never_blocks(a),
    ensures
        errs_within(a, no_err()),
{
}

pub proof fn lemma_attacked_never_blocks(setup: &Setup, a: Answers, sq: int, by: Color)
    requires
        never_blocks(a),
    ensures
        attacked_spec(setup, a, sq, by) is Ok,
{
    lemma_never_blocks_errs(a);
    lemma_attacked_errs(setup, a, no_err(), sq, by);
}

pub proof fn lemma_in_check_never_blocks(setup: &Setup, a: Answers, c: Color)
    requires
        never_blocks(a),
    ensures
        in_check_spec(setup, a, c) is Ok,
{
    lemma_never_blocks_errs(a);
    lemma_in_check_errs(setup, a, no_err(), c);
}

/// A concrete position always answers, so move generation on it never
/// blocks.
pub proof fn lemma_legal_moves_never_blocks(setup: &Setup, a: Answers, stm: Color)
    requires
        never_blocks(a),
    ensures
        legal_moves_spec(setup, a, stm) is Ok,
{
    lemma_never_blocks_errs(a);
    lemma_legal_moves_errs(setup, a, no_err(), stm);
}


// ---------------------------------------------------------------------
// Text
// ---------------------------------------------------------------------

/// The square's name: file letter, then the rank counted from 1.
pub open spec fn sq_name_spec(n: u8, sq: int) -> Seq<char> {
    seq![(97 + file_of(n, sq)) as char] + crate::text::decimal((rank_of(n, sq) + 1) as nat)
}

/// Upper-case ASCII letters to lower case; anything else unchanged.
pub open spec fn lower_spec(c: char) -> char {
    if 'A' <= c <= 'Z' {
        ((c as u32) + 32) as char
    } else {
        c
    }
}

fn lower(c: char) -> (r: char)
    ensures
        r == lower_spec(c),
{
    if 'A' <= c && c <= 'Z' {
        (((c as u8) + 32u8) as char)
    } else {
        c
    }
}

/// The board character of `sq`: the occupant's letter (black in lower
/// case), or '.'.
pub open spec fn square_char(setup: &Setup, p: Seq<Option<Sq>>, sq: Sq) -> char {
    match occupant(p, sq) {
        Some(slot) => {
            let l = letter_spec(setup.kind_spec(slot as int));
            if setup.color_spec(slot as int) == Color::White {
                l
            } else {
                lower_spec(l)
            }
        },
        None => '.',
    }
}

/// Files `f..n` of rank `r`: each square's character and a space.
pub open spec fn row_chars(setup: &Setup, p: Seq<Option<Sq>>, r: int, f: int) -> Seq<char>
    decreases setup.n - f,
{
    if f < 0 || f >= setup.n {
        Seq::empty()
    } else {
        seq![square_char(setup, p, sq_at(setup.n, f, r)), ' '] + row_chars(setup, p, r, f + 1)
    }
}

/// Ranks `r` down to 0, each as its number, a space, its squares, a newline.
pub open spec fn rows_from(setup: &Setup, p: Seq<Option<Sq>>, r: int) -> Seq<char>
    decreases r + 1,
{
    if r < 0 {
        Seq::empty()
    } else {
        crate::text::decimal((r + 1) as nat) + seq![' '] + row_chars(setup, p, r, 0) + seq!['\n']
            + rows_from(setup, p, r - 1)
    }
}

/// The file letters `f..n`, each followed by a space.
pub open spec fn file_letters(n: u8, f: int) -> Seq<char>
    decreases n - f,
{
    if f < 0 || f >= n {
        Seq::empty()
    } else {
        seq![(97 + f) as char, ' '] + file_letters(n, f + 1)
    }
}

pub open spec fn color_name(c: Color) -> Seq<char> {
    match c {
        Color::White => seq!['W', 'h', 'i', 't', 'e'],
        Color::Black => seq!['B', 'l', 'a', 'c', 'k'],
    }
}

/// The board drawn rank by rank from the top, then the file letters and
/// the side to move.
pub open spec fn render_spec(setup: &Setup, p: &Position) -> Seq<char> {
    rows_from(setup, p.sqs@, setup.n - 1) + seq![' ', ' '] + file_letters(setup.n, 0) + seq![' ', ' ']
        + color_name(p.stm) + seq![' ', 't', 'o', ' ', 'm', 'o', 'v', 'e', '\n']
}

impl Position {
    pub fn render(&self, setup: &Setup) -> (r: String)
        requires
            setup.wf(),
            self.sqs.len() <= setup.slots.len(),
        ensures
            r@ == render_spec(setup, self),
    {
        let n = setup.n;
        let mut s = String::new();
        let mut r: u8 = n;
        let ghost nn = n as int;
        while r > 0
            invariant
                0 <= r <= n,
                n == setup.n,
                setup.wf(),
                self.sqs.len() <= setup.slots.len(),
                s@ + rows_from(setup, self.sqs@, r - 1) == rows_from(setup, self.sqs@, n - 1),
            decreases r,
        {
            r -= 1;
            let ghost before = s@;
            crate::text::push_decimal(&mut s, (r + 1) as u32);
            crate::text::push_char(&mut s, ' ');
            let ghost head = s@;
            let mut f: u8 = 0;
            while f < n
                invariant
                    0 <= f <= n,
                    r < n,
                    n == setup.n,
                    setup.wf(),
                    self.sqs.len() <= setup.slots.len(),
                    s@ + row_chars(setup, self.sqs@, r as int, f as int) == head + row_chars(
                        setup,
                        self.sqs@,
                        r as int,
                        0,
                    ),
                decreases n - f,
            {
                proof {
                    lemma_coords(n, f as int, r as int);
                    lemma_occ_from(self.sqs@, sq_at(n, f as int, r as int), 0);
                }
                let sq = setup.sq(f as i32, r as i32).unwrap();
                let ch = match self.at(&mut (), sq).unwrap() {
                    Some(slot) => {
                        let l = setup.kind(slot).letter();
                        if setup.color(slot) == Color::White {
                            l
                        } else {
                            lower(l)
                        }
                    },
                    None => '.',
                };
                let ghost s0 = s@;
                crate::text::push_char(&mut s, ch);
                crate::text::push_char(&mut s, ' ');
                assert(s@ + row_chars(setup, self.sqs@, r as int, f + 1) =~= s0 + row_chars(
                    setup,
                    self.sqs@,
                    r as int,
                    f as int,
                ));
                f += 1;
            }
            let ghost s1 = s@;
            crate::text::push_char(&mut s, '\n');
            assert(s@ + rows_from(setup, self.sqs@, r - 1) =~= before + rows_from(
                setup,
                self.sqs@,
                r as int,
            ));
        }
        assert(s@ =~= rows_from(setup, self.sqs@, n - 1));
        let ghost rows = s@;
        crate::text::push_char(&mut s, ' ');
        crate::text::push_char(&mut s, ' ');
        let ghost mid = s@;
        let mut f: u8 = 0;
        while f < n
            invariant
                0 <= f <= n,
                n == setup.n,
                n <= 8,
                s@ + file_letters(n, f as int) == mid + file_letters(n, 0),
            decreases n - f,
        {
            let ghost s0 = s@;
            crate::text::push_char(&mut s, ((97u8 + f) as char));
            crate::text::push_char(&mut s, ' ');
            assert(s@ + file_letters(n, f + 1) =~= s0 + file_letters(n, f as int));
            f += 1;
        }
        assert(s@ =~= mid + file_letters(n, 0));
        crate::text::push_char(&mut s, ' ');
        crate::text::push_char(&mut s, ' ');
        let name: Vec<char> = match self.stm {
            Color::White => vec!['W', 'h', 'i', 't', 'e'],
            Color::Black => vec!['B', 'l', 'a', 'c', 'k'],
        };
        crate::text::push_chars(&mut s, &name);
        let tail: Vec<char> = vec![' ', 't', 'o', ' ', 'm', 'o', 'v', 'e', '\n'];
        crate::text::push_chars(&mut s, &tail);
        assert(s@ =~= render_spec(setup, self));
        s
    }
}

/// A move as "<from>-><to>", with "x" after a capture.
pub open spec fn move_text_spec(m: Move) -> Seq<char> {
    crate::text::decimal(m.from as nat) + seq!['-', '>'] + crate::text::decimal(m.to as nat) + if m.capture
        is Some {
        seq!['x']
    } else {
        Seq::empty()
    }
}

impl Move {
    /// The move as "<from>-><to>", with "x" after a capture.
    pub fn to_text(&self) -> (r: String)
        ensures
            r@ == move_text_spec(*self),
    {
        let mut s = String::new();
        crate::text::push_decimal(&mut s, self.from as u32);
        crate::text::push_char(&mut s, '-');
        crate::text::push_char(&mut s, '>');
        crate::text::push_decimal(&mut s, self.to as u32);
        if self.capture.is_some() {
            crate::text::push_char(&mut s, 'x');
        }
        s
    }
}

/// A move in long algebraic form: piece letter, from, '-' or 'x', to.
pub open spec fn move_str_spec(setup: &Setup, mv: Move) -> Seq<char> {
    seq![letter_spec(setup.kind_spec(mv.slot as int))] + sq_name_spec(setup.n, mv.from as int) + seq![
        if mv.capture is Some {
            'x'
        } else {
            '-'
        },
    ] + sq_name_spec(setup.n, mv.to as int)
}

pub fn move_str(setup: &Setup, mv: Move) -> (r: String)
    requires
        1 <= setup.n <= 159,
        mv.slot < setup.slots.len(),
    ensures
        r@ == move_str_spec(setup, mv),
{
    let mut s = String::new();
    crate::text::push_char(&mut s, setup.kind(mv.slot).letter());
    let a = setup.sq_name(mv.from);
    crate::text::push_chars(&mut s, &crate::text::chars_of(a.as_str()));
    crate::text::push_char(
        &mut s,
        if mv.capture.is_some() {
            'x'
        } else {
            '-'
        },
    );
    let b = setup.sq_name(mv.to);
    crate::text::push_chars(&mut s, &crate::text::chars_of(b.as_str()));
    assert(s@ =~= move_str_spec(setup, mv));
    s
}


// ---------------------------------------------------------------------
// Parsing a material specification
// ---------------------------------------------------------------------

/// The first 'v' or 'V' at or after `i` (the length if none).
pub open spec fn first_v(cs: Seq<char>, i: int) -> int
    decreases cs.len() - i,
{
    if i < 0 || i >= cs.len() {
        cs.len() as int
    } else if cs[i] == 'v' || cs[i] == 'V' {
        i
    } else {
        first_v(cs, i + 1)
    }
}

/// The pieces of colour `c` named by `cs[i..hi]`, or the first bad letter.
pub open spec fn letters_from(cs: Seq<char>, c: Color, i: int, hi: int) -> Result<
    Seq<(Color, Kind)>,
    char,
>
    decreases hi - i,
{
    if i < 0 || i >= hi {
        Ok(Seq::empty())
    } else {
        match parse_kind_spec(cs[i]) {
            None => Err(cs[i]),
            Some(k) => match letters_from(cs, c, i + 1, hi) {
                Err(x) => Err(x),
                Ok(rest) => Ok(seq![(c, k)] + rest),
            },
        }
    }
}

/// How many kings of `c` among the first `k` slots.
pub open spec fn kings_upto(slots: Seq<(Color, Kind)>, c: Color, k: int) -> nat
    decreases k,
{
    if k <= 0 {
        0
    } else {
        kings_upto(slots, c, k - 1) + if is_king_of(slots[k - 1], c) {
            1nat
        } else {
            0nat
        }
    }
}

pub open spec fn bad_spec_msg(spec: Seq<char>) -> Seq<char> {
    "bad material spec "@ + crate::text::debug_str_spec(spec) + ": expected e.g. KRvK"@
}

pub open spec fn bad_letter_msg(c: char) -> Seq<char> {
    "bad piece letter "@ + crate::text::debug_char_spec(c)
}

/// "KRvK", "KQvKR", ...: white pieces, 'v' (or 'V'), black pieces; one king
/// per side, a board of 2..=8 files. The slots, or the error message.
pub open spec fn parse_spec(n: u8, cs: Seq<char>) -> Result<Seq<(Color, Kind)>, Seq<char>> {
    let k = first_v(cs, 0);
    if k >= cs.len() {
        Err(bad_spec_msg(cs))
    } else {
        match letters_from(cs, Color::White, 0, k) {
            Err(c) => Err(bad_letter_msg(c)),
            Ok(w) => match letters_from(cs, Color::Black, k + 1, cs.len() as int) {
                Err(c) => Err(bad_letter_msg(c)),
                Ok(b) => if kings_upto(w + b, Color::White, (w + b).len() as int) != 1 || kings_upto(
                    w + b,
                    Color::Black,
                    (w + b).len() as int,
                ) != 1 {
                    Err("each side needs exactly one king"@)
                } else if n < 2 || n > 8 {
                    Err("board size must be 2..=8"@)
                } else {
                    Ok(w + b)
                },
            },
        }
    }
}

/// White slots first, then black: the order `parse` lays slots out in.
pub open spec fn white_first(slots: Seq<(Color, Kind)>) -> bool {
    forall|i: int, j: int| 0 <= i < j < slots.len() && (#[trigger] slots[j]).0 == Color::White ==> (#[trigger] slots[i]).0 == Color::White
}

/// The name of a setup, as `name` writes it.
pub open spec fn name_spec(slots: Seq<(Color, Kind)>) -> Seq<char> {
    letters_of(slots, slots_of_spec(slots, Color::White)) + seq!['v'] + letters_of(slots, slots_of_spec(slots, Color::Black))
}

/// With white slots first, the white slots below `k` are `0..m`, and the
/// rest below `k` are black.
proof fn lemma_whites_prefix(slots: Seq<(Color, Kind)>, k: int)
    requires
        white_first(slots),
        0 <= k <= slots.len() <= 256,
    ensures
        forall|i: int| 0 <= i < slots_of_upto(slots, Color::White, k).len() ==> #[trigger] slots_of_upto(slots, Color::White, k)[i] == i,
        forall|i: int| 0 <= i < slots_of_upto(slots, Color::White, k).len() ==> (#[trigger] slots[i]).0 == Color::White,
        forall|i: int| slots_of_upto(slots, Color::White, k).len() <= i < k ==> (#[trigger] slots[i]).0 == Color::Black,
        slots_of_upto(slots, Color::White, k).len() <= k,
    decreases k,
{
    if k > 0 {
        lemma_whites_prefix(slots, k - 1);
        let m = slots_of_upto(slots, Color::White, k - 1).len();
        if slots[k - 1].0 == Color::White && m < k - 1 {
            assert(slots[m as int].0 == Color::Black);
            assert(slots[m as int].0 == Color::White);
        }
    }
}

/// With white slots first, the black slots below `k` are `w..k`.
proof fn lemma_blacks_suffix(slots: Seq<(Color, Kind)>, w: int, k: int)
    requires
        0 <= w <= k <= slots.len() <= 256,
        forall|i: int| 0 <= i < slots.len() ==> ((#[trigger] slots[i]).0 == Color::White <==> i < w),
    ensures
        slots_of_upto(slots, Color::Black, k).len() == k - w,
        forall|i: int| 0 <= i < k - w ==> #[trigger] slots_of_upto(slots, Color::Black, k)[i] == w + i,
    decreases k,
{
    if k > w {
        lemma_blacks_suffix(slots, w, k - 1);
        assert(slots[k - 1].0 != Color::White);
    } else {
        lemma_blacks_none(slots, w, k);
    }
}

proof fn lemma_blacks_none(slots: Seq<(Color, Kind)>, w: int, k: int)
    requires
        0 <= k <= w <= slots.len(),
        forall|i: int| 0 <= i < slots.len() ==> ((#[trigger] slots[i]).0 == Color::White <==> i < w),
    ensures
        slots_of_upto(slots, Color::Black, k).len() == 0,
    decreases k,
{
    if k > 0 {
        lemma_blacks_none(slots, w, k - 1);
        assert(slots[k - 1].0 == Color::White);
    }
}

/// No piece letter is a `v`.
proof fn lemma_first_v_letters(cs: Seq<char>, w: int, i: int)
    requires
        0 <= i <= w < cs.len(),
        cs[w] == 'v',
        forall|t: int| 0 <= t < w ==> #[trigger] cs[t] != 'v' && cs[t] != 'V',
    ensures
        first_v(cs, i) == w,
    decreases w - i,
{
    if i < w {
        lemma_first_v_letters(cs, w, i + 1);
    }
}

/// Reading back the letters of `slots[lo..hi]`, written from `cs[off..]`.
proof fn lemma_letters_back(cs: Seq<char>, slots: Seq<(Color, Kind)>, c: Color, off: int, lo: int, hi: int, i: int)
    requires
        0 <= lo <= i <= hi <= slots.len(),
        0 <= off,
        off + (hi - lo) <= cs.len(),
        forall|t: int| lo <= t < hi ==> (#[trigger] slots[t]).0 == c && cs[off + (t - lo)] == letter_spec(slots[t].1),
    ensures
        letters_from(cs, c, off + (i - lo), off + (hi - lo)) == Ok::<Seq<(Color, Kind)>, char>(slots.subrange(i, hi)),
    decreases hi - i,
{
    if i < hi {
        lemma_letters_back(cs, slots, c, off, lo, hi, i + 1);
        lemma_parse_letter(slots[i].1);
        assert(slots[i] == (c, slots[i].1));
        assert(seq![(c, slots[i].1)] + slots.subrange(i + 1, hi) =~= slots.subrange(i, hi));
    } else {
        assert(slots.subrange(i, hi) =~= Seq::<(Color, Kind)>::empty());
    }
}

/// One king of `c` counts as one.
proof fn lemma_one_king_count(slots: Seq<(Color, Kind)>, c: Color, t: int, k: int)
    requires
        0 <= t < slots.len(),
        0 <= k <= slots.len(),
        is_king_of(slots[t], c),
        forall|i: int| 0 <= i < slots.len() && i != t ==> !is_king_of(#[trigger] slots[i], c),
    ensures
        kings_upto(slots, c, k) == (if t < k { 1nat } else { 0nat }),
    decreases k,
{
    if k > 0 {
        lemma_one_king_count(slots, c, t, k - 1);
    }
}

/// Parsing the name of a setup whose white slots come first gives its
/// slots back.
#[verifier::rlimit(40)]
#[verifier::spinoff_prover]
pub proof fn lemma_parse_name(setup: &Setup)
    requires
        setup.wf(),
        white_first(setup.slots@),
    ensures
        parse_spec(setup.n, name_spec(setup.slots@)) == Ok::<Seq<(Color, Kind)>, Seq<char>>(setup.slots@),
{
    let s = setup.slots@;
    let len = s.len() as int;
    lemma_whites_prefix(s, len);
    let w = slots_of_spec(s, Color::White).len() as int;
    assert forall|i: int| 0 <= i < s.len() implies ((#[trigger] s[i]).0 == Color::White <==> i < w) by {
        if i >= w {
            assert(s[i].0 == Color::Black);
        }
    }
    lemma_blacks_suffix(s, w, len);
    let lw = letters_of(s, slots_of_spec(s, Color::White));
    let lb = letters_of(s, slots_of_spec(s, Color::Black));
    let cs = name_spec(s);
    assert(cs.len() == len + 1);
    assert forall|t: int| 0 <= t < w implies #[trigger] cs[t] != 'v' && cs[t] != 'V' && cs[t] == letter_spec(s[t].1) by {
        assert(cs[t] == lw[t]);
        assert(slots_of_spec(s, Color::White)[t] == t);
    }
    assert(cs[w] == 'v');
    lemma_first_v_letters(cs, w, 0);
    assert forall|t: int| 0 <= t < w implies (#[trigger] s[t]).0 == Color::White && cs[0 + (t - 0)] == letter_spec(s[t].1) by {
        assert(cs[t] == letter_spec(s[t].1));
    }
    lemma_letters_back(cs, s, Color::White, 0, 0, w, 0);
    assert forall|t: int| w <= t < len implies (#[trigger] s[t]).0 == Color::Black && cs[(w + 1) + (t - w)] == letter_spec(s[t].1) by {
        assert(cs[(w + 1) + (t - w)] == lb[t - w]);
        assert(slots_of_spec(s, Color::Black)[t - w] == t);
    }
    lemma_letters_back(cs, s, Color::Black, w + 1, w, len, w);
    assert(s.subrange(0, w) + s.subrange(w, len) =~= s);
    let tw = choose|i: int| 0 <= i < s.len() && is_king_of(#[trigger] s[i], Color::White);
    let tb = choose|i: int| 0 <= i < s.len() && is_king_of(#[trigger] s[i], Color::Black);
    lemma_one_king_count(s, Color::White, tw, len);
    lemma_one_king_count(s, Color::Black, tb, len);
}

/// Counting the kings of a colour to one means there is exactly one.
pub proof fn lemma_kings_upto(slots: Seq<(Color, Kind)>, c: Color, k: int)
    requires
        0 <= k <= slots.len(),
    ensures
        kings_upto(slots, c, k) == 0 ==> forall|i: int| 0 <= i < k ==> !is_king_of(#[trigger] slots[i], c),
        kings_upto(slots, c, k) == 1 ==> (exists|i: int| 0 <= i < k && is_king_of(#[trigger] slots[i], c))
            && forall|i: int, j: int|
            0 <= i < k && 0 <= j < k && is_king_of(#[trigger] slots[i], c) && is_king_of(
                #[trigger] slots[j],
                c,
            ) ==> i == j,
    decreases k,
{
    if k > 0 {
        lemma_kings_upto(slots, c, k - 1);
        if kings_upto(slots, c, k) == 1 {
            if is_king_of(slots[k - 1], c) {
                assert(is_king_of(slots[k - 1], c));
            }
        }
    }
}

fn letters_exec(cs: &Vec<char>, c: Color, lo: usize, hi: usize, out: &mut Vec<(Color, Kind)>) -> (r: Result<
    (),
    char,
>)
    requires
        lo <= hi <= cs.len(),
    ensures
        match letters_from(cs@, c, lo as int, hi as int) {
            Ok(x) => r == Ok::<(), char>(()) && final(out)@ == old(out)@ + x,
            Err(x) => r == Err::<(), char>(x),
        },
{
    let mut i = lo;
    let ghost out0 = out@;
    while i < hi
        invariant
            lo <= i <= hi <= cs.len(),
            out0 == old(out)@,
            match letters_from(cs@, c, lo as int, hi as int) {
                Ok(x) => letters_from(cs@, c, i as int, hi as int) matches Ok(y) && out0 + x == out@ + y,
                Err(e) => letters_from(cs@, c, i as int, hi as int) == Err::<Seq<(Color, Kind)>, char>(
                    e,
                ),
            },
        decreases hi - i,
    {
        match Kind::parse(cs[i]) {
            None => {
                return Err(cs[i]);
            },
            Some(k) => {
                let ghost before = out@;
                out.push((c, k));
                proof {
                    match letters_from(cs@, c, i + 1, hi as int) {
                        Ok(y) => {
                            assert(before + (seq![(c, k)] + y) =~= out@ + y);
                        },
                        Err(_) => {},
                    }
                }
            },
        }
        i += 1;
    }
    proof {
        match letters_from(cs@, c, lo as int, hi as int) {
            Ok(x) => {
                assert(out@ + Seq::<(Color, Kind)>::empty() =~= out@);
            },
            Err(_) => {},
        }
    }
    Ok(())
}

fn count_kings(slots: &Vec<(Color, Kind)>, c: Color) -> (r: usize)
    ensures
        r == kings_upto(slots@, c, slots.len() as int),
{
    let mut k: usize = 0;
    let mut i: usize = 0;
    while i < slots.len()
        invariant
            0 <= i <= slots.len(),
            k == kings_upto(slots@, c, i as int),
            k <= i,
        decreases slots.len() - i,
    {
        if slots[i].0 == c && slots[i].1 == Kind::King {
            k += 1;
        }
        i += 1;
    }
    k
}

impl Setup {
    /// Parse "KRvK", "KQvKR", ... (white pieces, 'v', black pieces).
    pub fn parse(n: u8, spec: &str) -> (r: Result<Setup, String>)
        ensures
            match parse_spec(n, spec@) {
                Ok(sl) => r matches Ok(st) && st.n == n && st.slots@ == sl && (sl.len() <= 255 ==> st.wf()),
                Err(msg) => r matches Err(e) && e@ == msg,
            },
    {
        let cs = crate::text::chars_of(spec);
        let mut k: usize = 0;
        while k < cs.len()
            invariant
                0 <= k <= cs.len(),
                first_v(cs@, 0) == first_v(cs@, k as int),
            ensures
                0 <= k <= cs.len(),
                first_v(cs@, 0) == k as int,
            decreases cs.len() - k,
        {
            if cs[k] == 'v' || cs[k] == 'V' {
                break;
            }
            k += 1;
        }
        if k >= cs.len() {
            let mut e = "bad material spec ".to_owned();
            let d = crate::text::debug_str(spec);
            e.append(d.as_str());
            e.append(": expected e.g. KRvK");
            return Err(e);
        }
        let mut slots: Vec<(Color, Kind)> = Vec::new();
        match letters_exec(&cs, Color::White, 0, k, &mut slots) {
            Err(c) => {
                let mut e = "bad piece letter ".to_owned();
                let d = crate::text::debug_char(c);
                e.append(d.as_str());
                return Err(e);
            },
            Ok(()) => {},
        }
        match letters_exec(&cs, Color::Black, k + 1, cs.len(), &mut slots) {
            Err(c) => {
                let mut e = "bad piece letter ".to_owned();
                let d = crate::text::debug_char(c);
                e.append(d.as_str());
                return Err(e);
            },
            Ok(()) => {},
        }
        assert(Seq::<(Color, Kind)>::empty() + slots@ =~= slots@);
        if count_kings(&slots, Color::White) != 1 || count_kings(&slots, Color::Black) != 1 {
            return Err("each side needs exactly one king".to_owned());
        }
        if n < 2 || n > 8 {
            return Err("board size must be 2..=8".to_owned());
        }
        proof {
            lemma_kings_upto(slots@, Color::White, slots.len() as int);
            lemma_kings_upto(slots@, Color::Black, slots.len() as int);
        }
        Ok(Setup { n, slots })
    }
}

} // verus!
