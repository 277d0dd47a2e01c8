//! Abstract move generation over regions (products of per-slot square
//! sets). A candidate move is a (slot, destination) pair applied to a whole
//! region: the region is split until "this slot can legally move to `t`" is
//! decided everywhere, and on the decided-yes parts the successor is again a
//! product (mover pinned at `t`, a captured rook removed, everything else
//! unchanged) whose sub-regions pull back exactly to products. The mover's
//! origin is never pinned: its domain is only narrowed to the squares that
//! can reach `t`.
//!
//! Attack detection is written for kings and rooks (the certificate's
//! material); setups with other kinds are outside its contracts.

use vstd::prelude::*;
use crate::board::{
    Color, Kind, Setup, SlotId, Sq, file_of, rank_of, lemma_coords, lemma_square_coords, on_board, occupant, flip_spec,
    king_slot_spec, distinct_squares, slots_of_spec, lemma_slots_of_upto,
};
use crate::board::lemma_occ_from;
use crate::narrow::{
    normalized, some_empty, lemma_disjoint_concat, lemma_within_trans,
    Dom, Region, bit, lemma_bits, lemma_bit_single, lemma_bit_empty, lemma_bit_nonzero, member, placed, splits,
    members, in_some, disjoint, tidy, doms_within, dom_within, dom_facts, region_facts, map_doms, unpinned,
    pinned_at, lemma_region_facts_within, lemma_within_member, lemma_pin_loses, lemma_capture_loses,
    lemma_facts_within,
};

verus! {

// ---------------------------------------------------------------------
// Geometry of kings and rooks
// ---------------------------------------------------------------------

/// `p` and `q` are distinct squares a king step apart.
pub open spec fn adjacent_spec(n: u8, p: int, q: int) -> bool {
    &&& p != q
    &&& -1 <= file_of(n, p) - file_of(n, q) <= 1
    &&& -1 <= rank_of(n, p) - rank_of(n, q) <= 1
}

/// `p` and `q` are distinct squares on one file or one rank.
pub open spec fn aligned_spec(n: u8, p: int, q: int) -> bool {
    p != q && (file_of(n, p) == file_of(n, q) || rank_of(n, p) == rank_of(n, q))
}

/// `b` lies strictly between `a` and `c`.
pub open spec fn strictly_between(a: int, b: int, c: int) -> bool {
    (a < b && b < c) || (c < b && b < a)
}

/// Square `x` lies strictly between `p` and `q` on their common rank or file.
pub open spec fn between_spec(n: u8, p: int, q: int, x: int) -> bool {
    &&& 0 <= x < n * n
    &&& {
        ||| rank_of(n, x) == rank_of(n, p) && rank_of(n, p) == rank_of(n, q) && strictly_between(
            file_of(n, p),
            file_of(n, x),
            file_of(n, q),
        )
        ||| file_of(n, x) == file_of(n, p) && file_of(n, p) == file_of(n, q) && strictly_between(
            rank_of(n, p),
            rank_of(n, x),
            rank_of(n, q),
        )
    }
}

pub fn adjacent(setup: &Setup, p: Sq, q: Sq) -> (r: bool)
    requires
        setup.n > 0,
    ensures
        r == adjacent_spec(setup.n, p as int, q as int),
{
    let (px, py) = setup.file_rank(p);
    let (qx, qy) = setup.file_rank(q);
    p != q && -1 <= px - qx && px - qx <= 1 && -1 <= py - qy && py - qy <= 1
}

pub fn aligned(setup: &Setup, p: Sq, q: Sq) -> (r: bool)
    requires
        setup.n > 0,
    ensures
        r == aligned_spec(setup.n, p as int, q as int),
{
    let (px, py) = setup.file_rank(p);
    let (qx, qy) = setup.file_rank(q);
    p != q && (px == qx || py == qy)
}

/// `p` and `q` share a rank, a file or a diagonal (or are one square).
pub open spec fn on_line_spec(n: u8, p: int, q: int) -> bool {
    let fp = file_of(n, p);
    let rp = rank_of(n, p);
    let fq = file_of(n, q);
    let rq = rank_of(n, q);
    fp == fq || rp == rq || fq - fp == rq - rp || fq - fp == rp - rq
}

/// Square `x` lies strictly between `p` and `q` on the rank, file or
/// diagonal that joins them.
pub open spec fn line_between_spec(n: u8, p: int, q: int, x: int) -> bool {
    let fp = file_of(n, p);
    let rp = rank_of(n, p);
    let fq = file_of(n, q);
    let rq = rank_of(n, q);
    let fx = file_of(n, x);
    let rx = rank_of(n, x);
    &&& 0 <= x < n * n
    &&& if rp == rq {
        rx == rp && strictly_between(fp, fx, fq)
    } else if fp == fq {
        fx == fp && strictly_between(rp, rx, rq)
    } else if fq - fp == rq - rp {
        strictly_between(rp, rx, rq) && fx - fp == rx - rp
    } else {
        strictly_between(rp, rx, rq) && fx - fp == rp - rx
    }
}

/// How many steps from `p` square `x` lies, walking towards `q`.
spec fn walk_index(n: u8, p: int, q: int, x: int) -> int {
    if rank_of(n, p) == rank_of(n, q) {
        if file_of(n, x) >= file_of(n, p) {
            file_of(n, x) - file_of(n, p)
        } else {
            file_of(n, p) - file_of(n, x)
        }
    } else if rank_of(n, x) >= rank_of(n, p) {
        rank_of(n, x) - rank_of(n, p)
    } else {
        rank_of(n, p) - rank_of(n, x)
    }
}

/// The squares strictly between two squares on one rank, file or diagonal
/// (none when they are one square).
pub fn between_mask(setup: &Setup, p: Sq, q: Sq) -> (mask: u64)
    requires
        setup.wf(),
        p < setup.area_spec(),
        q < setup.area_spec(),
        on_line_spec(setup.n, p as int, q as int),
    ensures
        forall|x: int| #[trigger] bit(mask, x) <==> line_between_spec(setup.n, p as int, q as int, x),
        aligned_spec(setup.n, p as int, q as int) ==> forall|x: int|
            #[trigger] bit(mask, x) <==> between_spec(setup.n, p as int, q as int, x),
{
    let ghost n = setup.n;
    proof {
        lemma_square_coords(n, p as int);
        lemma_square_coords(n, q as int);
        lemma_bit_empty();
    }
    let (px, py) = setup.file_rank(p);
    let (qx, qy) = setup.file_rank(q);
    if p == q {
        return 0;
    }
    let df: i32 = if qx > px {
        1
    } else if qx < px {
        -1
    } else {
        0
    };
    let dr: i32 = if qy > py {
        1
    } else if qy < py {
        -1
    } else {
        0
    };
    let ghost k: int = if py == qy {
        if qx > px {
            qx - px
        } else {
            px - qx
        }
    } else if qy > py {
        qy - py
    } else {
        py - qy
    };
    proof {
        if px == qx && py == qy {
            assert(p == q);
        }
    }
    let mut mask = 0u64;
    let mut cf = px + df;
    let mut cr = py + dr;
    let ghost mut t: int = 1;
    while cf != qx || cr != qy
        invariant
            setup.wf(),
            n == setup.n,
            p < setup.area_spec(),
            q < setup.area_spec(),
            on_line_spec(n, p as int, q as int),
            p != q,
            px == file_of(n, p as int),
            py == rank_of(n, p as int),
            qx == file_of(n, q as int),
            qy == rank_of(n, q as int),
            on_board(n, px as int, py as int),
            on_board(n, qx as int, qy as int),
            qx > px ==> df == 1,
            qx < px ==> df == -1,
            qx == px ==> df == 0,
            qy > py ==> dr == 1,
            qy < py ==> dr == -1,
            qy == py ==> dr == 0,
            k == (if py == qy {
                if qx > px {
                    qx - px
                } else {
                    px - qx
                }
            } else if qy > py {
                qy - py
            } else {
                py - qy
            }),
            !(px == qx && py == qy),
            px != qx && py != qy ==> (qx - px == k || px - qx == k),
            1 <= t <= k,
            df == 1 ==> cf == px + t,
            df == -1 ==> cf == px - t,
            df == 0 ==> cf == px,
            dr == 1 ==> cr == py + t,
            dr == -1 ==> cr == py - t,
            dr == 0 ==> cr == py,
            forall|x: int| #[trigger] bit(mask, x) <==> line_between_spec(n, p as int, q as int, x) && walk_index(
                n,
                p as int,
                q as int,
                x,
            ) < t,
        decreases k - t,
    {
        proof {
            assert(t < k);
        }
        let cur_opt = setup.sq(cf, cr);
        proof {
            lemma_coords(n, cf as int, cr as int);
        }
        let cur = cur_opt.unwrap();
        proof {
            lemma_bits(mask, 1u64 << cur);
            lemma_bit_single(cur as u64);
            assert(file_of(n, cur as int) == cf && rank_of(n, cur as int) == cr);
            assert(line_between_spec(n, p as int, q as int, cur as int));
            assert(walk_index(n, p as int, q as int, cur as int) == t);
            assert forall|x: int| #[trigger] bit(mask | (1u64 << cur), x) <==> line_between_spec(
                n,
                p as int,
                q as int,
                x,
            ) && walk_index(n, p as int, q as int, x) < t + 1 by {
                if line_between_spec(n, p as int, q as int, x) && walk_index(n, p as int, q as int, x) == t {
                    lemma_square_coords(n, x);
                    assert(rank_of(n, x) == cr && file_of(n, x) == cf);
                    assert(x == rank_of(n, x) * n + file_of(n, x));
                }
            }
        }
        mask = mask | (1u64 << cur);
        cf = cf + df;
        cr = cr + dr;
        proof {
            t = t + 1;
        }
    }
    proof {
        assert(t == k);
        assert forall|x: int| #[trigger] bit(mask, x) <==> line_between_spec(n, p as int, q as int, x) by {
            if line_between_spec(n, p as int, q as int, x) {
                assert(walk_index(n, p as int, q as int, x) < k);
            }
        }
        if aligned_spec(n, p as int, q as int) {
            assert forall|x: int| line_between_spec(n, p as int, q as int, x) <==> between_spec(n, p as int, q as int, x) by {}
        }
    }
    mask
}

/// The squares of the board a king step from `t`.
fn adjacent_mask(setup: &Setup, t: Sq) -> (m: u64)
    requires
        setup.wf(),
    ensures
        forall|x: int| #[trigger] bit(m, x) <==> 0 <= x < setup.area_spec() && adjacent_spec(setup.n, x, t as int),
{
    let area = setup.area();
    assert(setup.n * setup.n <= 64) by (nonlinear_arith)
        requires
            setup.n <= 8,
    ;
    let mut m = 0u64;
    let mut p: usize = 0;
    proof {
        lemma_bit_empty();
    }
    while p < area
        invariant
            setup.wf(),
            area == setup.area_spec(),
            area <= 64,
            0 <= p <= area,
            forall|x: int| #[trigger] bit(m, x) <==> 0 <= x < p && adjacent_spec(setup.n, x, t as int),
        decreases area - p,
    {
        if adjacent(setup, p as Sq, t) {
            proof {
                lemma_bits(m, 1u64 << p);
                lemma_bit_single(p as u64);
            }
            m = m | (1u64 << p);
        }
        p += 1;
    }
    m
}

/// The squares of the board on a line with `t`.
fn aligned_mask(setup: &Setup, t: Sq) -> (m: u64)
    requires
        setup.wf(),
    ensures
        forall|x: int| #[trigger] bit(m, x) <==> 0 <= x < setup.area_spec() && aligned_spec(setup.n, x, t as int),
{
    let area = setup.area();
    assert(setup.n * setup.n <= 64) by (nonlinear_arith)
        requires
            setup.n <= 8,
    ;
    let mut m = 0u64;
    let mut p: usize = 0;
    proof {
        lemma_bit_empty();
    }
    while p < area
        invariant
            setup.wf(),
            area == setup.area_spec(),
            area <= 64,
            0 <= p <= area,
            forall|x: int| #[trigger] bit(m, x) <==> 0 <= x < p && aligned_spec(setup.n, x, t as int),
        decreases area - p,
    {
        if aligned(setup, p as Sq, t) {
            proof {
                lemma_bits(m, 1u64 << p);
                lemma_bit_single(p as u64);
            }
            m = m | (1u64 << p);
        }
        p += 1;
    }
    m
}

// ---------------------------------------------------------------------
// Splitting a region on one slot
// ---------------------------------------------------------------------

/// The outcome of a test on a region: decided everywhere, or the region
/// split into parts on which it is tried again.
pub enum Step<T> {
    Decided(T),
    Split(Vec<Region>),
}

/// The domains of each region.
pub open spec fn region_doms(v: Seq<Region>) -> Seq<Seq<Dom>> {
    map_doms(v, |r: Region| r.dom@)
}

/// `c` is a tidy part of `r`, with the same side to move.
pub open spec fn part_of(r: Region, c: Region) -> bool {
    &&& c.stm == r.stm
    &&& doms_within(c.dom@, r.dom@)
    &&& tidy(c.dom@)
}

/// The children split the positions of `r`, each a tidy part of it.
pub open spec fn refines(r: Region, ch: Seq<Region>) -> bool {
    &&& splits(region_doms(ch), members(r.dom@))
    &&& forall|i: int| 0 <= i < ch.len() ==> #[trigger] part_of(r, ch[i])
}

/// Every child leaves fewer facts open than `r`.
pub open spec fn shrinks(r: Region, ch: Seq<Region>) -> bool {
    forall|i: int| 0 <= i < ch.len() ==> region_facts(#[trigger] ch[i].dom@) < region_facts(r.dom@)
}

/// With domain `s` narrowed to `d`, the positions are those of `doms`
/// whose slot `s` is placed in `d`.
proof fn lemma_member_update(doms: Seq<Dom>, s: int, d: Dom)
    requires
        0 <= s < doms.len(),
        dom_within(d, doms[s]),
    ensures
        forall|p: Seq<Option<Sq>>| #[trigger] member(doms.update(s, d), p) <==> member(doms, p) && placed(d, p[s]),
{
    let e = doms.update(s, d);
    assert forall|p: Seq<Option<Sq>>| #[trigger] member(e, p) <==> member(doms, p) && placed(d, p[s]) by {
        if member(e, p) {
            assert(placed(e[s], p[s]));
            assert forall|k: int| 0 <= k < p.len() implies #[trigger] placed(doms[k], p[k]) by {
                assert(placed(e[k], p[k]));
                if k == s && p[k] is Some {
                    assert(bit(d.sq, p[k]->Some_0 as int));
                }
            }
        }
        if member(doms, p) && placed(d, p[s]) {
            assert forall|k: int| 0 <= k < p.len() implies #[trigger] placed(e[k], p[k]) by {
                assert(placed(doms[k], p[k]));
            }
        }
    }
}

/// Split `r` on slot `s`, one child per piece of `ds` that leaves
/// positions. The pieces must divide the slot's placements.
fn split_slot(r: &Region, s: usize, ds: Vec<Dom>) -> (out: Vec<Region>)
    requires
        s < r.dom.len(),
        forall|j: int| 0 <= j < ds.len() ==> #[trigger] dom_within(ds@[j], r.dom@[s as int]),
        forall|x: Option<Sq>| #[trigger] placed(r.dom@[s as int], x) ==> exists|j: int| 0 <= j < ds.len() && placed(ds@[j], x),
        forall|i: int, j: int, x: Option<Sq>| 0 <= i < j < ds.len() && #[trigger] placed(ds@[i], x) ==> !#[trigger] placed(ds@[j], x),
    ensures
        refines(*r, out@),
        forall|i: int| 0 <= i < out.len() ==> exists|j: int| 0 <= j < ds.len() && dom_within((#[trigger] out@[i]).dom@[s as int], ds@[j]),
        (forall|j: int| 0 <= j < ds.len() ==> #[trigger] dom_facts(ds@[j]) < dom_facts(r.dom@[s as int])) ==> shrinks(*r, out@),
{
    let mut out: Vec<Region> = Vec::new();
    let mut j: usize = 0;
    let ghost progress = forall|j: int| 0 <= j < ds.len() ==> #[trigger] dom_facts(ds@[j]) < dom_facts(r.dom@[s as int]);
    while j < ds.len()
        invariant
            s < r.dom.len(),
            0 <= j <= ds.len(),
            progress == forall|j: int| 0 <= j < ds.len() ==> #[trigger] dom_facts(ds@[j]) < dom_facts(r.dom@[s as int]),
            forall|j: int| 0 <= j < ds.len() ==> #[trigger] dom_within(ds@[j], r.dom@[s as int]),
            forall|i: int, j: int, x: Option<Sq>| 0 <= i < j < ds.len() && #[trigger] placed(ds@[i], x) ==> !#[trigger] placed(ds@[j], x),
            forall|i: int| 0 <= i < out.len() ==> #[trigger] part_of(*r, out@[i]),
            forall|i: int| 0 <= i < out.len() ==> exists|jj: int| 0 <= jj < j && dom_within((#[trigger] out@[i]).dom@[s as int], ds@[jj]),
            progress ==> shrinks(*r, out@),
            disjoint(region_doms(out@)),
            forall|p: Seq<Option<Sq>>| #[trigger] in_some(region_doms(out@), p) <==> member(r.dom@, p) && exists|jj: int| 0 <= jj < j && placed(ds@[jj], p[s as int]),
        decreases ds.len() - j,
    {
        let d = ds[j];
        let ghost upd = r.dom@.update(s as int, d);
        proof {
            lemma_member_update(r.dom@, s as int, d);
        }
        let ghost before = out@;
        match r.restrict(s, d) {
            Some(c) => {
                proof {
                    assert forall|k: int| 0 <= k < c.dom.len() implies #[trigger] dom_within(c.dom@[k], r.dom@[k]) by {
                        assert(dom_within(c.dom@[k], upd[k]));
                        if k == s {
                            assert(ds@[j as int] == d);
                            assert(dom_within(d, r.dom@[k]));
                        } else {
                            assert(upd[k] == r.dom@[k]);
                        }
                    }
                    assert(dom_within(c.dom@[s as int], d)) by {
                        assert(dom_within(c.dom@[s as int], upd[s as int]));
                    }
                    if progress {
                        assert(doms_within(upd, r.dom@)) by {
                            assert forall|k: int| 0 <= k < upd.len() implies #[trigger] dom_within(upd[k], r.dom@[k]) by {
                                if k != s {
                                    assert(upd[k] == r.dom@[k]);
                                }
                            }
                        }
                        assert(dom_facts(upd[s as int]) < dom_facts(r.dom@[s as int]));
                        lemma_region_facts_within(upd, r.dom@);
                        lemma_region_facts_within(c.dom@, upd);
                    }
                }
                out.push(c);
                proof {
                    assert(region_doms(out@) == region_doms(before).push(c.dom@)) by {
                        assert(region_doms(out@) =~= region_doms(before).push(c.dom@));
                    }
                    assert forall|i: int| 0 <= i < out.len() implies exists|jj: int| 0 <= jj < j + 1 && dom_within((#[trigger] out@[i]).dom@[s as int], ds@[jj]) by {
                        if i < before.len() {
                            assert(out@[i] == before[i]);
                        } else {
                            assert(dom_within(out@[i].dom@[s as int], ds@[j as int]));
                        }
                    }
                    assert forall|a: int, b: int, p: Seq<Option<Sq>>|
                        0 <= a < out.len() && 0 <= b < out.len() && a != b && #[trigger] member(region_doms(out@)[a], p) implies !#[trigger] member(
                            region_doms(out@)[b],
                            p,
                        ) by {
                        if member(region_doms(out@)[b], p) {
                            if a < before.len() && b < before.len() {
                                assert(member(region_doms(before)[a], p));
                                assert(member(region_doms(before)[b], p));
                            } else {
                                let o = if a < before.len() { a } else { b };
                                assert(member(before[o].dom@, p));
                                assert(member(c.dom@, p));
                                let jj = choose|jj: int| 0 <= jj < j && dom_within(before[o].dom@[s as int], ds@[jj]);
                                assert(placed(before[o].dom@[s as int], p[s as int]));
                                assert(placed(c.dom@[s as int], p[s as int]));
                                if p[s as int] is Some {
                                    assert(bit(before[o].dom@[s as int].sq, p[s as int]->Some_0 as int));
                                    assert(bit(c.dom@[s as int].sq, p[s as int]->Some_0 as int));
                                }
                                assert(placed(ds@[jj], p[s as int]));
                                assert(placed(d, p[s as int]));
                            }
                        }
                    }
                    assert forall|p: Seq<Option<Sq>>| #[trigger] in_some(region_doms(out@), p) <==> member(r.dom@, p) && exists|jj: int|
                        0 <= jj < j + 1 && placed(ds@[jj], p[s as int]) by {
                        if in_some(region_doms(out@), p) {
                            let i = choose|i: int| 0 <= i < region_doms(out@).len() && #[trigger] member(region_doms(out@)[i], p);
                            if i < before.len() {
                                assert(member(region_doms(before)[i], p));
                                assert(in_some(region_doms(before), p));
                                let jj = choose|jj: int| 0 <= jj < j && placed(ds@[jj], p[s as int]);
                                assert(placed(ds@[jj], p[s as int]));
                            } else {
                                assert(member(c.dom@, p));
                                assert(placed(ds@[j as int], p[s as int]));
                            }
                        }
                        if member(r.dom@, p) && exists|jj: int| 0 <= jj < j + 1 && placed(ds@[jj], p[s as int]) {
                            let jj = choose|jj: int| 0 <= jj < j + 1 && placed(ds@[jj], p[s as int]);
                            if jj < j {
                                assert(in_some(region_doms(before), p));
                                let i = choose|i: int| 0 <= i < region_doms(before).len() && #[trigger] member(region_doms(before)[i], p);
                                assert(member(region_doms(out@)[i], p));
                            } else {
                                assert(member(c.dom@, p));
                                assert(member(region_doms(out@)[before.len() as int], p));
                            }
                        }
                    }
                }
            },
            None => {
                proof {
                    assert forall|p: Seq<Option<Sq>>| #[trigger] in_some(region_doms(out@), p) <==> member(r.dom@, p) && exists|jj: int|
                        0 <= jj < j + 1 && placed(ds@[jj], p[s as int]) by {
                        if member(r.dom@, p) && exists|jj: int| 0 <= jj < j + 1 && placed(ds@[jj], p[s as int]) {
                            let jj = choose|jj: int| 0 <= jj < j + 1 && placed(ds@[jj], p[s as int]);
                            if jj == j {
                                assert(member(upd, p));
                            }
                        }
                    }
                }
            },
        }
        j += 1;
    }
    proof {
        assert forall|p: Seq<Option<Sq>>| #[trigger] in_some(region_doms(out@), p) <==> members(r.dom@)(p) by {
            if member(r.dom@, p) {
                assert(placed(r.dom@[s as int], p[s as int]));
            }
        }
    }
    out
}

/// Slot `s` present (anywhere in its domain) and slot `s` captured.
pub fn split_presence(r: &Region, s: SlotId) -> (out: Vec<Region>)
    requires
        (s as int) < r.dom.len(),
    ensures
        refines(*r, out@),
        forall|i: int|
            0 <= i < out.len() ==> {
                let e = (#[trigger] out@[i]).dom@[s as int];
                dom_within(e, Dom { sq: r.dom@[s as int].sq, cap: false }) || dom_within(e, Dom { sq: 0, cap: true })
            },
        r.dom@[s as int].cap && r.dom@[s as int].sq != 0 ==> shrinks(*r, out@),
{
    let d = r.dom[s as usize];
    let a = Dom { sq: d.sq, cap: false };
    let b = Dom::captured();
    let mut ds: Vec<Dom> = Vec::new();
    ds.push(a);
    ds.push(b);
    proof {
        lemma_bit_empty();
        assert(dom_within(a, d));
        assert(dom_within(b, d) || !d.cap);
        if d.cap && d.sq != 0 {
            lemma_facts_within(a, d);
            lemma_capture_loses(d);
        }
    }
    if !d.cap {
        // no captured placements: the second piece adds nothing
        ds.pop();
        proof {
            assert(ds@ == seq![a]);
        }
    }
    proof {
        assert forall|x: Option<Sq>| #[trigger] placed(d, x) implies exists|j: int| 0 <= j < ds.len() && placed(ds@[j], x) by {
            if x is Some {
                assert(placed(ds@[0], x));
            } else {
                assert(placed(ds@[1], x));
            }
        }
    }
    split_slot(r, s as usize, ds)
}

/// Squares of slot `s` inside `mask` (present) and outside it.
pub fn split_mask(r: &Region, s: SlotId, mask: u64) -> (out: Vec<Region>)
    requires
        (s as int) < r.dom.len(),
    ensures
        refines(*r, out@),
        forall|i: int|
            0 <= i < out.len() ==> {
                let e = (#[trigger] out@[i]).dom@[s as int];
                let d = r.dom@[s as int];
                dom_within(e, Dom { sq: d.sq & mask, cap: false }) || dom_within(e, Dom { sq: d.sq & !mask, cap: d.cap })
            },
        r.dom@[s as int].sq & mask != 0 && (r.dom@[s as int].cap || r.dom@[s as int].sq & !mask != 0) ==> shrinks(*r, out@),
{
    let d = r.dom[s as usize];
    let a = Dom { sq: d.sq & mask, cap: false };
    let b = Dom { sq: d.sq & !mask, cap: d.cap };
    let mut ds: Vec<Dom> = Vec::new();
    ds.push(a);
    ds.push(b);
    proof {
        lemma_bits(d.sq, mask);
        assert(dom_within(a, d));
        assert(dom_within(b, d));
        if d.sq & mask != 0 && (d.cap || d.sq & !mask != 0) {
            lemma_bit_nonzero(d.sq & mask);
            let t = (d.sq & mask).trailing_zeros() as int;
            assert(bit(d.sq, t) && !bit(b.sq, t));
            lemma_facts_within(b, d);
            if !d.cap {
                lemma_bit_nonzero(d.sq & !mask);
                let u = (d.sq & !mask).trailing_zeros() as int;
                assert(bit(d.sq, u) && !bit(a.sq, u));
            }
            lemma_facts_within(a, d);
        }
        assert forall|x: Option<Sq>| #[trigger] placed(d, x) implies exists|j: int| 0 <= j < ds.len() && placed(ds@[j], x) by {
            if let Some(q) = x {
                if bit(mask, q as int) {
                    assert(placed(ds@[0], x));
                } else {
                    assert(placed(ds@[1], x));
                }
            } else {
                assert(placed(ds@[1], x));
            }
        }
    }
    split_slot(r, s as usize, ds)
}

/// One pinned domain per square.
fn pins(sqs: &Vec<Sq>) -> (out: Vec<Dom>)
    requires
        forall|i: int| 0 <= i < sqs.len() ==> #[trigger] sqs@[i] < 64,
    ensures
        out.len() == sqs.len(),
        forall|i: int| 0 <= i < sqs.len() ==> (#[trigger] out@[i]).sq == 1u64 << sqs@[i] && !out@[i].cap && pinned_at(out@[i], sqs@[i] as int),
{
    let mut out: Vec<Dom> = Vec::new();
    let mut i: usize = 0;
    while i < sqs.len()
        invariant
            0 <= i <= sqs.len(),
            forall|i: int| 0 <= i < sqs.len() ==> #[trigger] sqs@[i] < 64,
            out.len() == i,
            forall|j: int| 0 <= j < i ==> (#[trigger] out@[j]).sq == 1u64 << sqs@[j] && !out@[j].cap && pinned_at(out@[j], sqs@[j] as int),
        decreases sqs.len() - i,
    {
        out.push(Dom::pinned(sqs[i]));
        i += 1;
    }
    out
}

/// Pin slot `s` at each of its squares inside `mask`; one more child for
/// "outside `mask`".
fn split_pin_in(r: &Region, s: SlotId, mask: u64) -> (out: Vec<Region>)
    requires
        (s as int) < r.dom.len(),
    ensures
        refines(*r, out@),
        forall|i: int|
            0 <= i < out.len() ==> {
                let e = (#[trigger] out@[i]).dom@[s as int];
                let d = r.dom@[s as int];
                (exists|t: int| #[trigger] bit(d.sq & mask, t) && pinned_at(e, t)) || dom_within(e, Dom { sq: d.sq & !mask, cap: d.cap })
            },
        unpinned(r.dom@[s as int]) && r.dom@[s as int].sq & mask != 0 ==> shrinks(*r, out@),
{
    let d = r.dom[s as usize];
    let inside = Dom { sq: d.sq & mask, cap: false };
    let sqs = inside.squares();
    let mut ds = pins(&sqs);
    let ghost np = ds.len();
    let b = Dom { sq: d.sq & !mask, cap: d.cap };
    ds.push(b);
    proof {
        lemma_bits(d.sq, mask);
        assert forall|j: int| 0 <= j < ds.len() implies #[trigger] dom_within(ds@[j], d) by {
            if j < np {
                lemma_bit_single(sqs@[j] as u64);
            }
        }
        assert forall|x: Option<Sq>| #[trigger] placed(d, x) implies exists|j: int| 0 <= j < ds.len() && placed(ds@[j], x) by {
            if let Some(q) = x {
                if bit(mask, q as int) {
                    assert(bit(inside.sq, q as int));
                    let j = choose|j: int| 0 <= j < sqs.len() && sqs@[j] == q;
                    lemma_bit_single(q as u64);
                    assert(placed(ds@[j], x));
                } else {
                    assert(placed(ds@[np as int], x));
                }
            } else {
                assert(placed(ds@[np as int], x));
            }
        }
        assert forall|i: int, j: int, x: Option<Sq>| 0 <= i < j < ds.len() && #[trigger] placed(ds@[i], x) implies !#[trigger] placed(ds@[j], x) by {
            if let Some(q) = x {
                lemma_bit_single(sqs@[i] as u64);
                assert(q == sqs@[i]);
                if j < np {
                    lemma_bit_single(sqs@[j] as u64);
                } else {
                    assert(bit(inside.sq, q as int));
                }
            }
        }
        if unpinned(d) && d.sq & mask != 0 {
            assert forall|j: int| 0 <= j < ds.len() implies #[trigger] dom_facts(ds@[j]) < dom_facts(d) by {
                if j < np {
                    lemma_pin_loses(d, sqs@[j]);
                } else {
                    lemma_bit_nonzero(d.sq & mask);
                    let t = (d.sq & mask).trailing_zeros() as int;
                    assert(bit(d.sq, t) && !bit(b.sq, t));
                    lemma_facts_within(b, d);
                }
            }
        }
    }
    let out = split_slot(r, s as usize, ds);
    proof {
        assert forall|i: int| 0 <= i < out.len() implies {
            let e = (#[trigger] out@[i]).dom@[s as int];
            (exists|t: int| #[trigger] bit(d.sq & mask, t) && pinned_at(e, t)) || dom_within(e, b)
        } by {
            let e = out@[i].dom@[s as int];
            let j = choose|j: int| 0 <= j < ds.len() && dom_within(e, ds@[j]);
            if j < np {
                let t = sqs@[j] as int;
                assert(bit(inside.sq, t));
                assert(part_of(*r, out@[i]));
                assert(!(e.sq == 0 && !e.cap)) by {
                    assert(tidy(out@[i].dom@));
                }
                assert(!e.cap);
                if e.sq == 0 {
                    lemma_bit_empty();
                }
                lemma_bit_nonzero(e.sq);
                assert(pinned_at(e, t)) by {
                    let tz = e.sq.trailing_zeros() as int;
                    assert(bit(e.sq, tz));
                    assert(bit(ds@[j].sq, tz));
                }
            }
        }
    }
    out
}

/// Pin the present slot `s` at each of its squares.
fn pin_each(r: &Region, s: SlotId) -> (out: Vec<Region>)
    requires
        (s as int) < r.dom.len(),
        !r.dom@[s as int].cap,
    ensures
        refines(*r, out@),
        forall|i: int| 0 <= i < out.len() ==> exists|t: int| #[trigger] bit(r.dom@[s as int].sq, t) && pinned_at((#[trigger] out@[i]).dom@[s as int], t),
        unpinned(r.dom@[s as int]) ==> shrinks(*r, out@),
{
    let d = r.dom[s as usize];
    let sqs = d.squares();
    let ds = pins(&sqs);
    proof {
        assert forall|j: int| 0 <= j < ds.len() implies #[trigger] dom_within(ds@[j], d) by {
            lemma_bit_single(sqs@[j] as u64);
        }
        assert forall|x: Option<Sq>| #[trigger] placed(d, x) implies exists|j: int| 0 <= j < ds.len() && placed(ds@[j], x) by {
            if let Some(q) = x {
                let j = choose|j: int| 0 <= j < sqs.len() && sqs@[j] == q;
                lemma_bit_single(q as u64);
                assert(placed(ds@[j], x));
            }
        }
        assert forall|i: int, j: int, x: Option<Sq>| 0 <= i < j < ds.len() && #[trigger] placed(ds@[i], x) implies !#[trigger] placed(ds@[j], x) by {
            if let Some(q) = x {
                lemma_bit_single(sqs@[i] as u64);
                lemma_bit_single(sqs@[j] as u64);
            }
        }
        if unpinned(d) {
            assert forall|j: int| 0 <= j < ds.len() implies #[trigger] dom_facts(ds@[j]) < dom_facts(d) by {
                lemma_pin_loses(d, sqs@[j]);
            }
        }
    }
    let out = split_slot(r, s as usize, ds);
    proof {
        assert forall|i: int| 0 <= i < out.len() implies exists|t: int| #[trigger] bit(d.sq, t) && pinned_at((#[trigger] out@[i]).dom@[s as int], t) by {
            let e = out@[i].dom@[s as int];
            let j = choose|j: int| 0 <= j < ds.len() && dom_within(e, ds@[j]);
            let t = sqs@[j] as int;
            assert(part_of(*r, out@[i]));
            assert(!(e.sq == 0 && !e.cap)) by {
                assert(tidy(out@[i].dom@));
            }
            if e.sq == 0 {
                lemma_bit_empty();
            }
            lemma_bit_nonzero(e.sq);
            assert(pinned_at(e, t)) by {
                let tz = e.sq.trailing_zeros() as int;
                assert(bit(e.sq, tz));
                assert(bit(ds@[j].sq, tz));
            }
        }
    }
    out
}

/// A board has at most 64 squares.
proof fn lemma_area(setup: &Setup)
    requires
        setup.wf(),
    ensures
        4 <= setup.area_spec() <= 64,
{
    assert(4 <= setup.n * setup.n <= 64) by (nonlinear_arith)
        requires
            2 <= setup.n <= 8,
    ;
}

/// A board has at most 64 squares.
pub proof fn lemma_area_pub(setup: &Setup)
    requires
        setup.wf(),
    ensures
        4 <= setup.area_spec() <= 64,
{
    lemma_area(setup);
}

/// Two masks with the same squares are equal.
pub proof fn lemma_bits_eq_pub(a: u64, b: u64)
    requires
        forall|q: int| #[trigger] bit(a, q) ==> bit(b, q),
        forall|q: int| #[trigger] bit(b, q) ==> bit(a, q),
    ensures
        a == b,
{
    lemma_bits_eq(a, b);
}

/// Two masks with the same squares are equal.
proof fn lemma_bits_eq(a: u64, b: u64)
    requires
        forall|q: int| #[trigger] bit(a, q) ==> bit(b, q),
        forall|q: int| #[trigger] bit(b, q) ==> bit(a, q),
    ensures
        a == b,
{
    lemma_bits(a, b);
    lemma_bits(b, a);
    assert forall|q: int| !#[trigger] bit(a & !b, q) by {}
    assert forall|q: int| !#[trigger] bit(b & !a, q) by {}
    crate::narrow::lemma_bit_none(a & !b);
    crate::narrow::lemma_bit_none(b & !a);
    assert(a == b) by (bit_vector)
        requires
            a & !b == 0,
            b & !a == 0,
    ;
}

// ---------------------------------------------------------------------
// What a move does on one position
// ---------------------------------------------------------------------

/// Every slot holds a king or a rook.
pub open spec fn kings_and_rooks(setup: &Setup) -> bool {
    forall|k: int| 0 <= k < setup.slots.len() ==> (#[trigger] setup.slots@[k]).1 == Kind::King || setup.slots@[k].1 == Kind::Rook
}

/// No piece of `p` stands strictly between squares `a` and `b`.
pub open spec fn clear_spec(n: u8, p: Seq<Option<Sq>>, a: int, b: int) -> bool {
    forall|c: int| 0 <= c < p.len() && (#[trigger] p[c]) is Some ==> !between_spec(n, a, b, p[c]->Some_0 as int)
}

/// On `p`, slot `a` attacks slot `k`: a king from a neighbouring square, a
/// rook along a clear line.
pub open spec fn attacks(setup: &Setup, p: Seq<Option<Sq>>, a: int, k: int) -> bool {
    &&& p[a] is Some
    &&& p[k] is Some
    &&& if setup.kind_spec(a) == Kind::King {
        adjacent_spec(setup.n, p[a]->Some_0 as int, p[k]->Some_0 as int)
    } else {
        aligned_spec(setup.n, p[a]->Some_0 as int, p[k]->Some_0 as int) && clear_spec(
            setup.n,
            p,
            p[a]->Some_0 as int,
            p[k]->Some_0 as int,
        )
    }
}

/// On `p`, some slot of colour `by` attacks slot `k`.
pub open spec fn under_attack(setup: &Setup, p: Seq<Option<Sq>>, k: int, by: Color) -> bool {
    exists|a: int| 0 <= a < p.len() && setup.color_spec(a) == by && #[trigger] attacks(setup, p, a, k)
}

/// Slot `s` can get to square `t` from where it stands on `p`.
pub open spec fn reaches(setup: &Setup, p: Seq<Option<Sq>>, s: int, t: int) -> bool {
    &&& p[s] is Some
    &&& if setup.kind_spec(s) == Kind::King {
        adjacent_spec(setup.n, p[s]->Some_0 as int, t)
    } else {
        aligned_spec(setup.n, p[s]->Some_0 as int, t) && clear_spec(setup.n, p, p[s]->Some_0 as int, t)
    }
}

/// Whatever stands on `t` may be taken by slot `s`: nothing, or an enemy
/// that is not the king.
pub open spec fn takeable(setup: &Setup, p: Seq<Option<Sq>>, s: int, t: Sq) -> bool {
    match occupant(p, t) {
        None => true,
        Some(c) => setup.color_spec(c as int) != setup.color_spec(s) && setup.kind_spec(c as int) != Kind::King,
    }
}

/// The placements after slot `s` moves to `t`, taking what stood there.
pub open spec fn after_move(p: Seq<Option<Sq>>, s: int, t: Sq) -> Seq<Option<Sq>> {
    let q = p.update(s, Some(t));
    match occupant(p, t) {
        Some(c) => q.update(c as int, None),
        None => q,
    }
}

/// What slot `s` moving to `t` does on `p`: `None` if the move is not
/// legal, else whether it captures.
pub open spec fn outcome(setup: &Setup, p: Seq<Option<Sq>>, s: int, t: Sq) -> Option<bool> {
    let own = setup.color_spec(s);
    if reaches(setup, p, s, t as int) && takeable(setup, p, s, t) && !under_attack(
        setup,
        after_move(p, s, t),
        king_slot_spec(setup.slots@, own),
        flip_spec(own),
    ) {
        Some(occupant(p, t) is Some)
    } else {
        None
    }
}

// ---------------------------------------------------------------------
// A region seen after a hypothetical move
// ---------------------------------------------------------------------

/// A region seen after a hypothetical move: the mover sits on `to`, a
/// captured slot is gone, everything else is as in `r`. Splits produced by
/// tests on the view always name an unchanged slot, so they apply to `r`.
pub struct AfterView<'a> {
    pub r: &'a Region,
    pub mover: Option<(SlotId, Sq)>,
    pub captured: Option<SlotId>,
}

impl AfterView<'_> {
    /// The domain of slot `c` in the view.
    pub open spec fn dom_spec(&self, c: int) -> Dom {
        if self.mover is Some && self.mover->Some_0.0 == c {
            Dom { sq: 1u64 << self.mover->Some_0.1, cap: false }
        } else if self.captured is Some && self.captured->Some_0 == c {
            Dom { sq: 0, cap: true }
        } else {
            self.r.dom@[c]
        }
    }

    /// A position of the region, seen in the view.
    pub open spec fn pos_spec(&self, p: Seq<Option<Sq>>) -> Seq<Option<Sq>> {
        let q = if self.mover is Some {
            p.update(self.mover->Some_0.0 as int, Some(self.mover->Some_0.1))
        } else {
            p
        };
        if self.captured is Some {
            q.update(self.captured->Some_0 as int, None)
        } else {
            q
        }
    }

    /// The mover and the captured slot are distinct slots of the setup,
    /// the destination a square of the board.
    pub open spec fn ok(&self, setup: &Setup) -> bool {
        &&& setup.wf()
        &&& self.r.wf(setup)
        &&& self.mover is Some ==> self.mover->Some_0.0 < self.r.dom.len() && self.mover->Some_0.1 < setup.area_spec()
        &&& self.captured is Some ==> self.captured->Some_0 < self.r.dom.len()
        &&& self.captured is Some && self.mover is Some ==> self.captured->Some_0 != self.mover->Some_0.0
    }

    pub fn dom(&self, c: SlotId) -> (d: Dom)
        requires
            (c as int) < self.r.dom.len(),
            self.mover is Some ==> self.mover->Some_0.1 < 64,
        ensures
            d == self.dom_spec(c as int),
    {
        match (self.mover, self.captured) {
            (Some((m, to)), _) if m == c => Dom::pinned(to),
            (_, Some(x)) if x == c => Dom::captured(),
            _ => self.r.dom[c as usize],
        }
    }

    /// Is slot `c` on the board (`Some(true)`), off it (`Some(false)`), or
    /// undecided?
    fn presence(&self, c: SlotId) -> (r: Option<bool>)
        requires
            (c as int) < self.r.dom.len(),
            self.mover is Some ==> self.mover->Some_0.1 < 64,
        ensures
            r == if self.dom_spec(c as int).sq == 0 && self.dom_spec(c as int).cap {
                Some(false)
            } else if !self.dom_spec(c as int).cap {
                Some(true)
            } else {
                None::<bool>
            },
    {
        let d = self.dom(c);
        if d.is_captured() {
            Some(false)
        } else if !d.cap {
            Some(true)
        } else {
            None
        }
    }

    /// Every position of the region, seen in the view, is placed in the
    /// view's domains.
    proof fn lemma_pos_placed(&self, setup: &Setup, p: Seq<Option<Sq>>)
        requires
            self.ok(setup),
            member(self.r.dom@, p),
        ensures
            self.pos_spec(p).len() == p.len(),
            forall|c: int| 0 <= c < p.len() ==> #[trigger] placed(self.dom_spec(c), self.pos_spec(p)[c]),
            forall|c: int|
                0 <= c < p.len() && !(self.mover is Some && self.mover->Some_0.0 == c) && !(self.captured is Some
                    && self.captured->Some_0 == c) ==> #[trigger] self.pos_spec(p)[c] == p[c],
    {
        lemma_area(setup);
        if self.mover is Some {
            lemma_bit_single(self.mover->Some_0.1 as u64);
        }
        lemma_bit_empty();
        assert forall|c: int| 0 <= c < p.len() implies #[trigger] placed(self.dom_spec(c), self.pos_spec(p)[c]) by {
            assert(placed(self.r.dom@[c], p[c]));
        }
    }

    /// A present slot whose view domain is not one square is neither the
    /// mover nor the captured slot: its domain is that of the region.
    proof fn lemma_plain(&self, c: int)
        requires
            0 <= c < self.r.dom.len(),
            !self.dom_spec(c).cap,
            unpinned(self.dom_spec(c)),
            self.mover is Some ==> self.mover->Some_0.1 < 64,
        ensures
            self.dom_spec(c) == self.r.dom@[c],
            !(self.mover is Some && self.mover->Some_0.0 == c),
            !(self.captured is Some && self.captured->Some_0 == c),
    {
        if self.mover is Some && self.mover->Some_0.0 == c {
            lemma_bit_single(self.mover->Some_0.1 as u64);
            assert(pinned_at(self.dom_spec(c), self.mover->Some_0.1 as int));
        }
    }
}

/// The squares of `d` a king step from `p`.
fn adjacent_in(setup: &Setup, d: Dom, p: Sq) -> (m: u64)
    requires
        setup.wf(),
    ensures
        forall|q: int| #[trigger] bit(m, q) <==> bit(d.sq, q) && adjacent_spec(setup.n, p as int, q),
{
    let mut m = 0u64;
    let mut q: u8 = 0;
    proof {
        lemma_bit_empty();
    }
    while q < 64
        invariant
            setup.wf(),
            0 <= q <= 64,
            forall|x: int| #[trigger] bit(m, x) <==> 0 <= x < q && bit(d.sq, x) && adjacent_spec(setup.n, p as int, x),
        decreases 64 - q,
    {
        if d.has(q) && adjacent(setup, p, q) {
            proof {
                lemma_bits(m, 1u64 << q);
                lemma_bit_single(q as u64);
            }
            m = m | (1u64 << q);
        }
        q += 1;
    }
    m
}

/// Distinct squares a king step apart.
pub open spec fn adj_pair(n: u8, x: int, y: int) -> bool {
    x != y && adjacent_spec(n, x, y)
}

/// Distinct squares not a king step apart.
pub open spec fn far_pair(n: u8, x: int, y: int) -> bool {
    x != y && !adjacent_spec(n, x, y)
}

/// Over all pairs of distinct squares from `da` and `db`: is some pair a
/// king step apart, and is some pair not?
fn adjacency_seen(setup: &Setup, da: Dom, db: Dom) -> (r: (bool, bool))
    requires
        setup.wf(),
    ensures
        r.0 == exists|x: int, y: int| bit(da.sq, x) && bit(db.sq, y) && #[trigger] adj_pair(setup.n, x, y),
        r.1 == exists|x: int, y: int| bit(da.sq, x) && bit(db.sq, y) && #[trigger] far_pair(setup.n, x, y),
{
    let ghost n = setup.n;
    let sa = da.squares();
    let sb = db.squares();
    let mut seen_t = false;
    let mut seen_f = false;
    let mut i: usize = 0;
    while i < sa.len()
        invariant
            setup.wf(),
            n == setup.n,
            0 <= i <= sa.len(),
            seen_t == exists|ii: int, jj: int| 0 <= ii < i && 0 <= jj < sb.len() && #[trigger] adj_pair(n, sa@[ii] as int, sb@[jj] as int),
            seen_f == exists|ii: int, jj: int| 0 <= ii < i && 0 <= jj < sb.len() && #[trigger] far_pair(n, sa@[ii] as int, sb@[jj] as int),
        decreases sa.len() - i,
    {
        let ghost t0 = seen_t;
        let ghost f0 = seen_f;
        let mut j: usize = 0;
        while j < sb.len()
            invariant
                setup.wf(),
                n == setup.n,
                0 <= i < sa.len(),
                0 <= j <= sb.len(),
                t0 == exists|ii: int, jj: int| 0 <= ii < i && 0 <= jj < sb.len() && #[trigger] adj_pair(n, sa@[ii] as int, sb@[jj] as int),
                f0 == exists|ii: int, jj: int| 0 <= ii < i && 0 <= jj < sb.len() && #[trigger] far_pair(n, sa@[ii] as int, sb@[jj] as int),
                seen_t == (t0 || exists|jj: int| 0 <= jj < j && #[trigger] adj_pair(n, sa@[i as int] as int, sb@[jj] as int)),
                seen_f == (f0 || exists|jj: int| 0 <= jj < j && #[trigger] far_pair(n, sa@[i as int] as int, sb@[jj] as int)),
            decreases sb.len() - j,
        {
            let x = sa[i];
            let y = sb[j];
            if x != y {
                if adjacent(setup, x, y) {
                    seen_t = true;
                } else {
                    seen_f = true;
                }
            }
            proof {
                assert(seen_t == (t0 || exists|jj: int| 0 <= jj < j + 1 && #[trigger] adj_pair(n, sa@[i as int] as int, sb@[jj] as int))) by {
                    if exists|jj: int| 0 <= jj < j + 1 && #[trigger] adj_pair(n, sa@[i as int] as int, sb@[jj] as int) {
                        let jj = choose|jj: int| 0 <= jj < j + 1 && #[trigger] adj_pair(n, sa@[i as int] as int, sb@[jj] as int);
                        if jj == j {
                            assert(adj_pair(n, x as int, y as int));
                        }
                    }
                    if seen_t && !t0 && !(exists|jj: int| 0 <= jj < j && #[trigger] adj_pair(n, sa@[i as int] as int, sb@[jj] as int)) {
                        assert(adj_pair(n, sa@[i as int] as int, sb@[j as int] as int));
                    }
                }
                assert(seen_f == (f0 || exists|jj: int| 0 <= jj < j + 1 && #[trigger] far_pair(n, sa@[i as int] as int, sb@[jj] as int))) by {
                    if exists|jj: int| 0 <= jj < j + 1 && #[trigger] far_pair(n, sa@[i as int] as int, sb@[jj] as int) {
                        let jj = choose|jj: int| 0 <= jj < j + 1 && #[trigger] far_pair(n, sa@[i as int] as int, sb@[jj] as int);
                        if jj == j {
                            assert(far_pair(n, x as int, y as int));
                        }
                    }
                    if seen_f && !f0 && !(exists|jj: int| 0 <= jj < j && #[trigger] far_pair(n, sa@[i as int] as int, sb@[jj] as int)) {
                        assert(far_pair(n, sa@[i as int] as int, sb@[j as int] as int));
                    }
                }
            }
            j += 1;
        }
        proof {
            assert(seen_t == exists|ii: int, jj: int| 0 <= ii < i + 1 && 0 <= jj < sb.len() && #[trigger] adj_pair(n, sa@[ii] as int, sb@[jj] as int)) by {
                if exists|ii: int, jj: int| 0 <= ii < i + 1 && 0 <= jj < sb.len() && #[trigger] adj_pair(n, sa@[ii] as int, sb@[jj] as int) {
                    let (ii, jj) = choose|ii: int, jj: int| 0 <= ii < i + 1 && 0 <= jj < sb.len() && #[trigger] adj_pair(n, sa@[ii] as int, sb@[jj] as int);
                    if ii < i {
                        assert(t0);
                    }
                }
            }
            assert(seen_f == exists|ii: int, jj: int| 0 <= ii < i + 1 && 0 <= jj < sb.len() && #[trigger] far_pair(n, sa@[ii] as int, sb@[jj] as int)) by {
                if exists|ii: int, jj: int| 0 <= ii < i + 1 && 0 <= jj < sb.len() && #[trigger] far_pair(n, sa@[ii] as int, sb@[jj] as int) {
                    let (ii, jj) = choose|ii: int, jj: int| 0 <= ii < i + 1 && 0 <= jj < sb.len() && #[trigger] far_pair(n, sa@[ii] as int, sb@[jj] as int);
                    if ii < i {
                        assert(f0);
                    }
                }
            }
        }
        i += 1;
    }
    proof {
        if exists|x: int, y: int| bit(da.sq, x) && bit(db.sq, y) && #[trigger] adj_pair(n, x, y) {
            let (x, y) = choose|x: int, y: int| bit(da.sq, x) && bit(db.sq, y) && #[trigger] adj_pair(n, x, y);
            let ii = choose|ii: int| 0 <= ii < sa.len() && sa@[ii] == x;
            let jj = choose|jj: int| 0 <= jj < sb.len() && sb@[jj] == y;
            assert(adj_pair(n, sa@[ii] as int, sb@[jj] as int));
        }
        if seen_t {
            let (ii, jj) = choose|ii: int, jj: int| 0 <= ii < sa.len() && 0 <= jj < sb.len() && #[trigger] adj_pair(n, sa@[ii] as int, sb@[jj] as int);
            assert(bit(da.sq, sa@[ii] as int) && bit(db.sq, sb@[jj] as int));
        }
        if exists|x: int, y: int| bit(da.sq, x) && bit(db.sq, y) && #[trigger] far_pair(n, x, y) {
            let (x, y) = choose|x: int, y: int| bit(da.sq, x) && bit(db.sq, y) && #[trigger] far_pair(n, x, y);
            let ii = choose|ii: int| 0 <= ii < sa.len() && sa@[ii] == x;
            let jj = choose|jj: int| 0 <= jj < sb.len() && sb@[jj] == y;
            assert(far_pair(n, sa@[ii] as int, sb@[jj] as int));
        }
        if seen_f {
            let (ii, jj) = choose|ii: int, jj: int| 0 <= ii < sa.len() && 0 <= jj < sb.len() && #[trigger] far_pair(n, sa@[ii] as int, sb@[jj] as int);
            assert(bit(da.sq, sa@[ii] as int) && bit(db.sq, sb@[jj] as int));
        }
    }
    (seen_t, seen_f)
}

impl AfterView<'_> {
    /// Decide, over the present slot `s` (not one square), whether it
    /// stands a king step from `p`; or split it by that.
    fn split_by_adjacent(&self, setup: &Setup, s: SlotId, p: Sq) -> (st: Step<bool>)
        requires
            self.ok(setup),
            (s as int) < self.r.dom.len(),
            !self.dom_spec(s as int).cap,
            unpinned(self.dom_spec(s as int)),
        ensures
            st matches Step::Decided(v) ==> forall|x: Seq<Option<Sq>>|
                #[trigger] member(self.r.dom@, x) ==> adjacent_spec(setup.n, p as int, self.pos_spec(x)[s as int]->Some_0 as int) == v,
            st matches Step::Split(ch) ==> refines(*self.r, ch@) && shrinks(*self.r, ch@),
    {
        proof {
            lemma_area(setup);
            self.lemma_plain(s as int);
        }
        let d = self.r.dom[s as usize];
        let m = adjacent_in(setup, d, p);
        if m == d.sq {
            proof {
                assert forall|x: Seq<Option<Sq>>| #[trigger] member(self.r.dom@, x) implies adjacent_spec(
                    setup.n,
                    p as int,
                    self.pos_spec(x)[s as int]->Some_0 as int,
                ) by {
                    self.lemma_pos_placed(setup, x);
                    assert(placed(self.dom_spec(s as int), self.pos_spec(x)[s as int]));
                    assert(bit(m, self.pos_spec(x)[s as int]->Some_0 as int));
                }
            }
            Step::Decided(true)
        } else if m == 0 {
            proof {
                lemma_bit_empty();
                assert forall|x: Seq<Option<Sq>>| #[trigger] member(self.r.dom@, x) implies !adjacent_spec(
                    setup.n,
                    p as int,
                    self.pos_spec(x)[s as int]->Some_0 as int,
                ) by {
                    self.lemma_pos_placed(setup, x);
                    assert(placed(self.dom_spec(s as int), self.pos_spec(x)[s as int]));
                    assert(!bit(m, self.pos_spec(x)[s as int]->Some_0 as int));
                }
            }
            Step::Decided(false)
        } else {
            proof {
                lemma_bits(d.sq, m);
                assert(d.sq & m == m) by {
                    lemma_bits_eq(d.sq & m, m);
                }
                assert(d.sq & !m != 0) by {
                    if d.sq & !m == 0 {
                        lemma_bit_empty();
                        assert forall|q: int| #[trigger] bit(d.sq, q) implies bit(m, q) by {
                            assert(!bit(d.sq & !m, q));
                        }
                        lemma_bits_eq(d.sq, m);
                    }
                }
            }
            Step::Split(split_mask(self.r, s, m))
        }
    }

    /// Decide whether two present slots stand a king step apart, or split
    /// (the unpinned side by adjacency to the pinned one; else pin the
    /// smaller).
    fn pair(&self, setup: &Setup, a: SlotId, b: SlotId) -> (st: Step<bool>)
        requires
            self.ok(setup),
            (a as int) < self.r.dom.len(),
            (b as int) < self.r.dom.len(),
            a != b,
            !self.dom_spec(a as int).cap,
            !self.dom_spec(b as int).cap,
        ensures
            st matches Step::Decided(v) ==> forall|x: Seq<Option<Sq>>|
                #[trigger] member(self.r.dom@, x) ==> adjacent_spec(
                    setup.n,
                    self.pos_spec(x)[a as int]->Some_0 as int,
                    self.pos_spec(x)[b as int]->Some_0 as int,
                ) == v,
            st matches Step::Split(ch) ==> refines(*self.r, ch@) && shrinks(*self.r, ch@),
    {
        proof {
            lemma_area(setup);
        }
        let da = self.dom(a);
        let db = self.dom(b);
        match (da.is_pinned(), db.is_pinned()) {
            (Some(p), Some(q)) => {
                let v = adjacent(setup, p, q);
                proof {
                    assert forall|x: Seq<Option<Sq>>| #[trigger] member(self.r.dom@, x) implies adjacent_spec(
                        setup.n,
                        self.pos_spec(x)[a as int]->Some_0 as int,
                        self.pos_spec(x)[b as int]->Some_0 as int,
                    ) == v by {
                        self.lemma_pos_placed(setup, x);
                        assert(placed(da, self.pos_spec(x)[a as int]));
                        assert(placed(db, self.pos_spec(x)[b as int]));
                    }
                }
                Step::Decided(v)
            },
            (Some(p), None) => {
                let st = self.split_by_adjacent(setup, b, p);
                proof {
                    if st is Decided {
                        assert forall|x: Seq<Option<Sq>>| #[trigger] member(self.r.dom@, x) implies self.pos_spec(x)[a as int]
                            == Some(p) by {
                            self.lemma_pos_placed(setup, x);
                            assert(placed(da, self.pos_spec(x)[a as int]));
                        }
                    }
                }
                st
            },
            (None, Some(q)) => {
                let st = self.split_by_adjacent(setup, a, q);
                proof {
                    if st is Decided {
                        assert forall|x: Seq<Option<Sq>>| #[trigger] member(self.r.dom@, x) implies self.pos_spec(x)[b as int]
                            == Some(q) by {
                            self.lemma_pos_placed(setup, x);
                            assert(placed(db, self.pos_spec(x)[b as int]));
                        }
                    }
                }
                st
            },
            (None, None) => {
                proof {
                    self.lemma_plain(a as int);
                    self.lemma_plain(b as int);
                }
                let (t, f) = adjacency_seen(setup, da, db);
                if t && !f {
                    proof {
                        assert forall|x: Seq<Option<Sq>>| #[trigger] member(self.r.dom@, x) implies adjacent_spec(
                            setup.n,
                            self.pos_spec(x)[a as int]->Some_0 as int,
                            self.pos_spec(x)[b as int]->Some_0 as int,
                        ) by {
                            self.lemma_pos_placed(setup, x);
                            let pa = x[a as int]->Some_0 as int;
                            let pb = x[b as int]->Some_0 as int;
                            assert(placed(da, x[a as int]) && placed(db, x[b as int]));
                            assert(pa != pb) by {
                                if a < b {
                                    assert(x[a as int] != x[b as int]);
                                } else {
                                    assert(x[b as int] != x[a as int]);
                                }
                            }
                            assert(!far_pair(setup.n, pa, pb));
                        }
                    }
                    Step::Decided(true)
                } else if !t && f {
                    proof {
                        assert forall|x: Seq<Option<Sq>>| #[trigger] member(self.r.dom@, x) implies !adjacent_spec(
                            setup.n,
                            self.pos_spec(x)[a as int]->Some_0 as int,
                            self.pos_spec(x)[b as int]->Some_0 as int,
                        ) by {
                            self.lemma_pos_placed(setup, x);
                            let pa = x[a as int]->Some_0 as int;
                            let pb = x[b as int]->Some_0 as int;
                            assert(placed(da, x[a as int]) && placed(db, x[b as int]));
                            assert(!adj_pair(setup.n, pa, pb));
                        }
                    }
                    Step::Decided(false)
                } else {
                    let s = if da.size() <= db.size() {
                        a
                    } else {
                        b
                    };
                    Step::Split(pin_each(self.r, s))
                }
            },
        }
    }
}

/// Is some square of `da` on a line with some square of `db`?
fn any_aligned(setup: &Setup, da: Dom, db: Dom) -> (r: bool)
    requires
        setup.wf(),
    ensures
        r == exists|x: int, y: int| bit(da.sq, x) && bit(db.sq, y) && #[trigger] aligned_spec(setup.n, x, y),
{
    let ghost n = setup.n;
    let sa = da.squares();
    let sb = db.squares();
    let mut i: usize = 0;
    while i < sa.len()
        invariant
            setup.wf(),
            n == setup.n,
            0 <= i <= sa.len(),
            forall|ii: int, jj: int| 0 <= ii < i && 0 <= jj < sb.len() ==> !#[trigger] aligned_spec(n, sa@[ii] as int, sb@[jj] as int),
            forall|ii: int| 0 <= ii < sa.len() ==> #[trigger] bit(da.sq, sa@[ii] as int),
            forall|jj: int| 0 <= jj < sb.len() ==> #[trigger] bit(db.sq, sb@[jj] as int),
        decreases sa.len() - i,
    {
        let mut j: usize = 0;
        while j < sb.len()
            invariant
                setup.wf(),
                n == setup.n,
                0 <= i < sa.len(),
                0 <= j <= sb.len(),
                forall|ii: int, jj: int| 0 <= ii < i && 0 <= jj < sb.len() ==> !#[trigger] aligned_spec(n, sa@[ii] as int, sb@[jj] as int),
                forall|jj: int| 0 <= jj < j ==> !#[trigger] aligned_spec(n, sa@[i as int] as int, sb@[jj] as int),
                forall|ii: int| 0 <= ii < sa.len() ==> #[trigger] bit(da.sq, sa@[ii] as int),
                forall|jj: int| 0 <= jj < sb.len() ==> #[trigger] bit(db.sq, sb@[jj] as int),
            decreases sb.len() - j,
        {
            if aligned(setup, sa[i], sb[j]) {
                proof {
                    assert(bit(da.sq, sa@[i as int] as int) && bit(db.sq, sb@[j as int] as int));
                    assert(aligned_spec(n, sa@[i as int] as int, sb@[j as int] as int));
                }
                return true;
            }
            j += 1;
        }
        i += 1;
    }
    proof {
        assert forall|x: int, y: int| bit(da.sq, x) && bit(db.sq, y) implies !#[trigger] aligned_spec(n, x, y) by {
            let ii = choose|ii: int| 0 <= ii < sa.len() && sa@[ii] == x;
            let jj = choose|jj: int| 0 <= jj < sb.len() && sb@[jj] == y;
            assert(!aligned_spec(n, sa@[ii] as int, sb@[jj] as int));
        }
    }
    false
}

impl AfterView<'_> {
    /// Squares of the view's domains are squares of the board.
    proof fn lemma_on_board(&self, setup: &Setup)
        requires
            self.ok(setup),
        ensures
            forall|c: int, q: int| 0 <= c < self.r.dom.len() && #[trigger] bit(self.dom_spec(c).sq, q) ==> 0 <= q < setup.area_spec(),
    {
        lemma_area(setup);
        lemma_bit_empty();
        if self.mover is Some {
            lemma_bit_single(self.mover->Some_0.1 as u64);
        }
        assert forall|c: int, q: int| 0 <= c < self.r.dom.len() && #[trigger] bit(self.dom_spec(c).sq, q) implies 0 <= q
            < setup.area_spec() by {
            if !(self.mover is Some && self.mover->Some_0.0 == c) && !(self.captured is Some && self.captured->Some_0 == c) {
                assert(bit(self.r.dom@[c].sq, q));
            }
        }
    }

    /// Pin the unpinned one of `a`, `b` with the smaller domain.
    fn pin_smaller(&self, setup: &Setup, a: SlotId, b: SlotId) -> (st: Step<bool>)
        requires
            self.ok(setup),
            (a as int) < self.r.dom.len(),
            (b as int) < self.r.dom.len(),
            !self.dom_spec(a as int).cap,
            !self.dom_spec(b as int).cap,
            unpinned(self.dom_spec(a as int)) || unpinned(self.dom_spec(b as int)),
        ensures
            st matches Step::Split(ch) && refines(*self.r, ch@) && shrinks(*self.r, ch@),
    {
        proof {
            lemma_area(setup);
        }
        let da = self.dom(a);
        let db = self.dom(b);
        let s = match (da.is_pinned(), db.is_pinned()) {
            (Some(_), None) => b,
            (None, Some(_)) => a,
            (None, None) => if da.size() <= db.size() {
                a
            } else {
                b
            },
            (Some(_), Some(_)) => {
                proof {
                    assert(false);
                }
                a
            },
        };
        proof {
            self.lemma_plain(s as int);
        }
        Step::Split(pin_each(self.r, s))
    }

    /// Does the present rook in slot `rook` have a clear line to `king`?
    fn rook_hits(&self, setup: &Setup, rook: SlotId, king: SlotId) -> (st: Step<bool>)
        requires
            self.ok(setup),
            (rook as int) < self.r.dom.len(),
            (king as int) < self.r.dom.len(),
            rook != king,
            !self.dom_spec(rook as int).cap,
            !self.dom_spec(king as int).cap,
        ensures
            st matches Step::Decided(v) ==> forall|x: Seq<Option<Sq>>|
                #[trigger] member(self.r.dom@, x) ==> {
                    let vp = self.pos_spec(x);
                    (aligned_spec(setup.n, vp[rook as int]->Some_0 as int, vp[king as int]->Some_0 as int) && clear_spec(
                        setup.n,
                        vp,
                        vp[rook as int]->Some_0 as int,
                        vp[king as int]->Some_0 as int,
                    )) == v
                },
            st matches Step::Split(ch) ==> refines(*self.r, ch@) && shrinks(*self.r, ch@),
    {
        proof {
            lemma_area(setup);
            self.lemma_on_board(setup);
        }
        let ghost n = setup.n;
        let dr = self.dom(rook);
        let dk = self.dom(king);
        let pr = dr.is_pinned();
        let pk = dk.is_pinned();
        if pr.is_none() || pk.is_none() {
            // With one side pinned, split the other on alignment first, so
            // the non-aligned part is decided without a pin.
            if let Some(q) = pk {
                let al = aligned_mask(setup, q);
                if dr.sq & !al != 0 && dr.sq & al != 0 {
                    proof {
                        self.lemma_plain(rook as int);
                    }
                    return Step::Split(split_mask(self.r, rook, al));
                }
            } else if let Some(p) = pr {
                let al = aligned_mask(setup, p);
                if dk.sq & !al != 0 && dk.sq & al != 0 {
                    proof {
                        self.lemma_plain(king as int);
                    }
                    return Step::Split(split_mask(self.r, king, al));
                }
            }
            // Decided only if no assignment is aligned; otherwise pin.
            let any = any_aligned(setup, dr, dk);
            if any {
                return self.pin_smaller(setup, rook, king);
            } else {
                proof {
                    assert forall|x: Seq<Option<Sq>>| #[trigger] member(self.r.dom@, x) implies !aligned_spec(
                        n,
                        self.pos_spec(x)[rook as int]->Some_0 as int,
                        self.pos_spec(x)[king as int]->Some_0 as int,
                    ) by {
                        self.lemma_pos_placed(setup, x);
                        assert(placed(dr, self.pos_spec(x)[rook as int]));
                        assert(placed(dk, self.pos_spec(x)[king as int]));
                    }
                }
                return Step::Decided(false);
            }
        }
        let p = pr.unwrap();
        let q = pk.unwrap();
        if !aligned(setup, p, q) {
            proof {
                assert forall|x: Seq<Option<Sq>>| #[trigger] member(self.r.dom@, x) implies !aligned_spec(
                    n,
                    self.pos_spec(x)[rook as int]->Some_0 as int,
                    self.pos_spec(x)[king as int]->Some_0 as int,
                ) by {
                    self.lemma_pos_placed(setup, x);
                    assert(placed(dr, self.pos_spec(x)[rook as int]));
                    assert(placed(dk, self.pos_spec(x)[king as int]));
                }
            }
            return Step::Decided(false);
        }
        proof {
            assert(bit(dr.sq, p as int) && bit(dk.sq, q as int));
        }
        let between = between_mask(setup, p, q);
        let mut c: usize = 0;
        while c < self.r.dom.len()
            invariant
                self.ok(setup),
                n == setup.n,
                0 <= c <= self.r.dom.len(),
                (rook as int) < self.r.dom.len(),
                (king as int) < self.r.dom.len(),
                setup.area_spec() <= 64,
                forall|x: int| #[trigger] bit(between, x) <==> between_spec(n, p as int, q as int, x),
                dr == self.dom_spec(rook as int),
                dk == self.dom_spec(king as int),
                pinned_at(dr, p as int),
                pinned_at(dk, q as int),
                rook != king,
                forall|cc: int, z: int|
                    0 <= cc < c && cc != rook && cc != king && #[trigger] bit(self.dom_spec(cc).sq, z) ==> !bit(between, z),
            decreases self.r.dom.len() - c,
        {
            if c != rook as usize && c != king as usize {
                let d = self.dom(c as SlotId);
                proof {
                    lemma_bits(d.sq, between);
                    lemma_bit_empty();
                }
                if d.sq & between != 0 {
                    if d.sq & !between == 0 && !d.cap {
                        proof {
                            lemma_bit_nonzero(d.sq & between);
                            assert forall|x: Seq<Option<Sq>>| #[trigger] member(self.r.dom@, x) implies !clear_spec(
                                n,
                                self.pos_spec(x),
                                self.pos_spec(x)[rook as int]->Some_0 as int,
                                self.pos_spec(x)[king as int]->Some_0 as int,
                            ) by {
                                self.lemma_pos_placed(setup, x);
                                let vp = self.pos_spec(x);
                                assert(placed(dr, vp[rook as int]));
                                assert(placed(dk, vp[king as int]));
                                assert(placed(d, vp[c as int]));
                                let z = vp[c as int]->Some_0 as int;
                                assert(!bit(d.sq & !between, z));
                                assert(between_spec(n, p as int, q as int, z));
                            }
                        }
                        return Step::Decided(false);  // certainly blocked
                    }
                    // `c` is neither the mover (one square) nor captured (no squares).
                    proof {
                        lemma_bit_nonzero(d.sq & between);
                        assert(!(self.mover is Some && self.mover->Some_0.0 == c)) by {
                            if self.mover is Some && self.mover->Some_0.0 == c {
                                lemma_bit_single(self.mover->Some_0.1 as u64);
                                let z = (d.sq & !between).trailing_zeros() as int;
                                if d.sq & !between != 0 {
                                    lemma_bit_nonzero(d.sq & !between);
                                    let w = (d.sq & between).trailing_zeros() as int;
                                    assert(bit(d.sq, z) && bit(d.sq, w));
                                }
                            }
                        }
                        assert(self.dom_spec(c as int) == self.r.dom@[c as int]);
                    }
                    return Step::Split(split_mask(self.r, c as SlotId, between));
                }
                proof {
                    assert forall|z: int| #[trigger] bit(self.dom_spec(c as int).sq, z) implies !bit(between, z) by {
                        assert(!bit(d.sq & between, z));
                    }
                }
            }
            c += 1;
        }
        proof {
            assert forall|x: Seq<Option<Sq>>| #[trigger] member(self.r.dom@, x) implies {
                let vp = self.pos_spec(x);
                aligned_spec(n, vp[rook as int]->Some_0 as int, vp[king as int]->Some_0 as int) && clear_spec(
                    n,
                    vp,
                    vp[rook as int]->Some_0 as int,
                    vp[king as int]->Some_0 as int,
                )
            } by {
                self.lemma_pos_placed(setup, x);
                let vp = self.pos_spec(x);
                assert(placed(dr, vp[rook as int]));
                assert(placed(dk, vp[king as int]));
                assert forall|cc: int| 0 <= cc < vp.len() && (#[trigger] vp[cc]) is Some implies !between_spec(
                    n,
                    p as int,
                    q as int,
                    vp[cc]->Some_0 as int,
                ) by {
                    assert(placed(self.dom_spec(cc), vp[cc]));
                    if cc != rook && cc != king {
                        assert(bit(self.dom_spec(cc).sq, vp[cc]->Some_0 as int));
                    }
                }
            }
        }
        Step::Decided(true)
    }

    /// Is the king in slot `king` attacked by a piece of colour `by`?
    pub fn attacked(&self, setup: &Setup, king: SlotId, by: Color) -> (st: Step<bool>)
        requires
            self.ok(setup),
            kings_and_rooks(setup),
            (king as int) < self.r.dom.len(),
            setup.color_spec(king as int) != by,
            !self.dom_spec(king as int).cap,
            self.mover is Some ==> setup.color_spec(self.mover->Some_0.0 as int) != by,
        ensures
            st matches Step::Decided(v) ==> forall|x: Seq<Option<Sq>>|
                #[trigger] member(self.r.dom@, x) ==> under_attack(setup, self.pos_spec(x), king as int, by) == v,
            st matches Step::Split(ch) ==> refines(*self.r, ch@) && shrinks(*self.r, ch@),
    {
        proof {
            lemma_area(setup);
            lemma_slots_of_upto(setup.slots@, by, setup.slots.len() as int);
        }
        let attackers = setup.slots_of(by);
        let mut i: usize = 0;
        while i < attackers.len()
            invariant
                self.ok(setup),
                kings_and_rooks(setup),
                (king as int) < self.r.dom.len(),
                setup.color_spec(king as int) != by,
                !self.dom_spec(king as int).cap,
                self.mover is Some ==> setup.color_spec(self.mover->Some_0.0 as int) != by,
                setup.area_spec() <= 64,
                attackers@ == slots_of_spec(setup.slots@, by),
                0 <= i <= attackers.len(),
                forall|j: int| 0 <= j < attackers.len() ==> (#[trigger] attackers@[j]) < setup.slots.len() && setup.slots@[attackers@[j] as int].0 == by,
                forall|j: int, x: Seq<Option<Sq>>|
                    0 <= j < i && #[trigger] member(self.r.dom@, x) ==> !attacks(setup, self.pos_spec(x), #[trigger] attackers@[j] as int, king as int),
            decreases attackers.len() - i,
        {
            let a = attackers[i];
            let pres = self.presence(a);
            if pres.is_none() {
                proof {
                    assert(!(self.mover is Some && self.mover->Some_0.0 == a));
                    assert(self.dom_spec(a as int) == self.r.dom@[a as int]);
                }
                return Step::Split(split_presence(self.r, a));
            }
            if pres == Some(true) {
                let st = if setup.kind(a) == Kind::King {
                    self.pair(setup, a, king)
                } else {
                    self.rook_hits(setup, a, king)
                };
                match st {
                    Step::Decided(false) => {},
                    Step::Decided(true) => {
                        proof {
                            assert forall|x: Seq<Option<Sq>>| #[trigger] member(self.r.dom@, x) implies under_attack(
                                setup,
                                self.pos_spec(x),
                                king as int,
                                by,
                            ) by {
                                self.lemma_pos_placed(setup, x);
                                assert(placed(self.dom_spec(a as int), self.pos_spec(x)[a as int]));
                                assert(placed(self.dom_spec(king as int), self.pos_spec(x)[king as int]));
                                assert(attacks(setup, self.pos_spec(x), a as int, king as int));
                            }
                        }
                        return Step::Decided(true);
                    },
                    Step::Split(ch) => {
                        return Step::Split(ch);
                    },
                }
                proof {
                    assert forall|x: Seq<Option<Sq>>| #[trigger] member(self.r.dom@, x) implies !attacks(
                        setup,
                        self.pos_spec(x),
                        a as int,
                        king as int,
                    ) by {
                        self.lemma_pos_placed(setup, x);
                        assert(placed(self.dom_spec(a as int), self.pos_spec(x)[a as int]));
                        assert(placed(self.dom_spec(king as int), self.pos_spec(x)[king as int]));
                    }
                }
            } else {
                proof {
                    lemma_bit_empty();
                    assert forall|x: Seq<Option<Sq>>| #[trigger] member(self.r.dom@, x) implies !attacks(
                        setup,
                        self.pos_spec(x),
                        a as int,
                        king as int,
                    ) by {
                        self.lemma_pos_placed(setup, x);
                        assert(placed(self.dom_spec(a as int), self.pos_spec(x)[a as int]));
                        if self.pos_spec(x)[a as int] is Some {
                            assert(bit(self.dom_spec(a as int).sq, self.pos_spec(x)[a as int]->Some_0 as int));
                        }
                    }
                }
            }
            i += 1;
        }
        proof {
            assert forall|x: Seq<Option<Sq>>| #[trigger] member(self.r.dom@, x) implies !under_attack(
                setup,
                self.pos_spec(x),
                king as int,
                by,
            ) by {
                self.lemma_pos_placed(setup, x);
                if under_attack(setup, self.pos_spec(x), king as int, by) {
                    let a = choose|a: int| 0 <= a < self.pos_spec(x).len() && setup.color_spec(a) == by && #[trigger] attacks(
                        setup,
                        self.pos_spec(x),
                        a,
                        king as int,
                    );
                    assert(slots_of_spec(setup.slots@, by).contains(a as SlotId));
                    let j = choose|j: int| 0 <= j < attackers.len() && attackers@[j] == a as SlotId;
                    assert(!attacks(setup, self.pos_spec(x), attackers@[j] as int, king as int));
                }
            }
        }
        Step::Decided(false)
    }
}

// ---------------------------------------------------------------------
// Deciding one candidate move on a region
// ---------------------------------------------------------------------

/// Outcome of a candidate move on a region: `Some(capture)` if every
/// position can legally play it, `None` if none can.
pub type CanMove = Option<bool>;

/// Kings are never captured: their domains hold squares only.
pub open spec fn kings_stay(setup: &Setup, doms: Seq<Dom>) -> bool {
    forall|k: int| 0 <= k < doms.len() && (#[trigger] setup.slots@[k]).1 == Kind::King ==> !doms[k].cap
}

/// What a region and a candidate move must be for the move to be decided
/// on it.
pub open spec fn move_ok(setup: &Setup, r: Region, s: int, t: int) -> bool {
    &&& setup.wf()
    &&& kings_and_rooks(setup)
    &&& r.wf(setup)
    &&& tidy(r.dom@)
    &&& kings_stay(setup, r.dom@)
    &&& 0 <= s < setup.slots.len()
    &&& setup.color_spec(s) == r.stm
    &&& 0 <= t < setup.area_spec()
}

/// A decided step tells the outcome of the move on every position of the
/// region; a split refines the region into parts with fewer open facts.
pub open spec fn step_sound(setup: &Setup, r: Region, s: int, t: Sq, st: Step<CanMove>) -> bool {
    match st {
        Step::Decided(x) => forall|p: Seq<Option<Sq>>| #[trigger] member(r.dom@, p) ==> outcome(setup, p, s, t) == x,
        Step::Split(ch) => refines(r, ch@) && shrinks(r, ch@),
    }
}

/// The slot standing on a square is the only one there.
proof fn lemma_occupant_is(p: Seq<Option<Sq>>, t: Sq, c: int)
    requires
        distinct_squares(p),
        0 <= c < p.len(),
        p[c] == Some(t),
        p.len() <= 256,
    ensures
        occupant(p, t) == Some(c as SlotId),
{
    lemma_occ_from(p, t, 0);
    let k = occ_from_first(p, t);
    if k != c {
        if k < c {
            assert(p[k] != p[c]);
        } else {
            assert(p[c] != p[k]);
        }
    }
}

spec fn occ_from_first(p: Seq<Option<Sq>>, t: Sq) -> int {
    crate::board::occ_from(p, t, 0)->Some_0
}

/// With nobody on a square, it has no occupant.
proof fn lemma_occupant_none(p: Seq<Option<Sq>>, t: Sq)
    requires
        forall|c: int| 0 <= c < p.len() ==> #[trigger] p[c] != Some(t),
    ensures
        occupant(p, t) is None,
{
    lemma_occ_from(p, t, 0);
    if crate::board::occ_from(p, t, 0) is Some {
        let k = occ_from_first(p, t);
        assert(p[k] == Some(t));
    }
}

/// The squares of `d` from which a rook reaches `t` without passing `x`.
fn unblocked(setup: &Setup, d: Dom, t: Sq, x: Sq) -> (keep: u64)
    requires
        setup.wf(),
        t < setup.area_spec(),
        x < 64,
        forall|q: int| #[trigger] bit(d.sq, q) ==> q < setup.area_spec(),
    ensures
        forall|o: int| #[trigger] bit(keep, o) <==> bit(d.sq, o) && !(aligned_spec(setup.n, o, t as int) && between_spec(setup.n, o, t as int, x as int)),
{
    proof {
        lemma_area(setup);
        lemma_bit_empty();
        lemma_bit_single(x as u64);
    }
    let area = setup.area();
    let mut keep = 0u64;
    let mut o: usize = 0;
    while o < area
        invariant
            setup.wf(),
            area == setup.area_spec(),
            area <= 64,
            t < area,
            x < 64,
            forall|q: int| #[trigger] bit(d.sq, q) ==> q < setup.area_spec(),
            forall|q: int| #[trigger] bit(1u64 << x, q) == (q == x),
            0 <= o <= area,
            forall|z: int| #[trigger] bit(keep, z) <==> 0 <= z < o && bit(d.sq, z) && !(aligned_spec(setup.n, z, t as int) && between_spec(setup.n, z, t as int, x as int)),
        decreases area - o,
    {
        let oq = o as Sq;
        if d.has(oq) {
            let blocked = if aligned(setup, oq, t) {
                let b = between_mask(setup, oq, t);
                proof {
                    lemma_bits(b, 1u64 << x);
                    if b & (1u64 << x) != 0 {
                        lemma_bit_nonzero(b & (1u64 << x));
                    }
                    if bit(b, x as int) {
                        assert(bit(b & (1u64 << x), x as int));
                    }
                }
                b & (1u64 << x) != 0
            } else {
                false
            };
            if !blocked {
                proof {
                    lemma_bits(keep, 1u64 << oq);
                    lemma_bit_single(oq as u64);
                }
                keep = keep | (1u64 << oq);
            }
        }
        o += 1;
    }
    keep
}

/// The occupancy of `t`, with the mover `s` on squares that reach `t`:
/// `Ok(capture)` when every position has `capture` (an enemy rook pinned
/// there) or nobody on `t`; otherwise the step to return.
fn scan_target(setup: &Setup, r: &Region, s: SlotId, t: Sq, geom: u64) -> (res: Result<Option<SlotId>, Step<CanMove>>)
    requires
        move_ok(setup, *r, s as int, t as int),
        forall|q: int| #[trigger] bit(r.dom@[s as int].sq, q) ==> bit(geom, q),
        !bit(geom, t as int),
        !r.dom@[s as int].cap,
    ensures
        res matches Err(st) ==> step_sound(setup, *r, s as int, t, st),
        res matches Ok(capture) ==> {
            &&& capture matches Some(v) ==> {
                &&& v < r.dom.len()
                &&& v != s
                &&& setup.color_spec(v as int) != r.stm
                &&& setup.kind_spec(v as int) != Kind::King
                &&& pinned_at(r.dom@[v as int], t as int)
            }
            &&& forall|p: Seq<Option<Sq>>| #[trigger] member(r.dom@, p) ==> occupant(p, t) == capture
        },
{
    let stm = r.stm;
    let mut capture: Option<SlotId> = None;
    let mut c: usize = 0;
    proof {
        lemma_area(setup);
    }
    while c < r.dom.len()
        invariant
            move_ok(setup, *r, s as int, t as int),
            stm == r.stm,
            setup.area_spec() <= 64,
            0 <= c <= r.dom.len(),
            capture matches Some(v) ==> {
                &&& v < c
                &&& v != s
                &&& setup.color_spec(v as int) != stm
                &&& setup.kind_spec(v as int) != Kind::King
                &&& pinned_at(r.dom@[v as int], t as int)
            },
            forall|cc: int| 0 <= cc < c && cc != s && Some(cc as SlotId) != capture ==> !#[trigger] bit(r.dom@[cc].sq, t as int),
        decreases r.dom.len() - c,
    {
        if c != s as usize && r.dom[c].has(t) {
            match r.dom[c].is_pinned() {
                None => {
                    proof {
                        lemma_bit_single(t as u64);
                        lemma_bits(r.dom@[c as int].sq, 1u64 << t);
                        assert(bit(r.dom@[c as int].sq & (1u64 << t), t as int));
                        lemma_bit_empty();
                        if !r.dom@[c as int].cap {
                            assert(!pinned_at(r.dom@[c as int], t as int));
                            let q = choose|q: int| !(#[trigger] bit(r.dom@[c as int].sq, q) <==> q == t);
                            assert(bit(r.dom@[c as int].sq & !(1u64 << t), q));
                        }
                    }
                    return Err(Step::Split(split_mask(r, c as SlotId, 1u64 << t)));
                },
                Some(_) => {
                    if setup.color(c as SlotId) == stm || setup.kind(c as SlotId) == Kind::King {
                        proof {
                            assert forall|p: Seq<Option<Sq>>| #[trigger] member(r.dom@, p) implies outcome(setup, p, s as int, t)
                                == None::<bool> by {
                                assert(placed(r.dom@[c as int], p[c as int]));
                                assert(p[c as int] == Some(t)) by {
                                    if p[c as int] is Some {
                                        assert(bit(r.dom@[c as int].sq, p[c as int]->Some_0 as int));
                                    }
                                }
                                lemma_occupant_is(p, t, c as int);
                            }
                        }
                        return Err(Step::Decided(None));
                    }
                    proof {
                        if let Some(v) = capture {
                            // two slots pinned at `t` contradict normalization
                            assert(bit(r.dom@[c as int].sq, t as int));
                            assert(normalized(r.dom@));
                        }
                    }
                    capture = Some(c as SlotId);
                },
            }
        }
        c += 1;
    }
    proof {
        assert forall|p: Seq<Option<Sq>>| #[trigger] member(r.dom@, p) implies occupant(p, t) == capture by {
            if let Some(v) = capture {
                assert(placed(r.dom@[v as int], p[v as int]));
                assert(p[v as int] == Some(t)) by {
                    if p[v as int] is Some {
                        assert(bit(r.dom@[v as int].sq, p[v as int]->Some_0 as int));
                    }
                }
                lemma_occupant_is(p, t, v as int);
            } else {
                assert forall|cc: int| 0 <= cc < p.len() implies #[trigger] p[cc] != Some(t) by {
                    assert(placed(r.dom@[cc], p[cc]));
                }
                lemma_occupant_none(p, t);
            }
        }
    }
    Ok(capture)
}

/// For a rook mover: `None` when every origin has a clear line to `t` in
/// every position; otherwise the step to return.
fn scan_path(setup: &Setup, r: &Region, s: SlotId, t: Sq) -> (res: Option<Step<CanMove>>)
    requires
        move_ok(setup, *r, s as int, t as int),
        setup.kind_spec(s as int) != Kind::King,
        !r.dom@[s as int].cap,
        forall|q: int| #[trigger] bit(r.dom@[s as int].sq, q) ==> aligned_spec(setup.n, q, t as int),
    ensures
        res matches Some(st) ==> step_sound(setup, *r, s as int, t, st),
        res is None ==> forall|p: Seq<Option<Sq>>|
            #[trigger] member(r.dom@, p) ==> clear_spec(setup.n, p, p[s as int]->Some_0 as int, t as int),
{
    let ghost n = setup.n;
    proof {
        lemma_area(setup);
        lemma_bit_empty();
    }
    let d = r.dom[s as usize];
    let sqs = d.squares();
    let mut path = 0u64;
    let mut i: usize = 0;
    while i < sqs.len()
        invariant
            move_ok(setup, *r, s as int, t as int),
            n == setup.n,
            d == r.dom@[s as int],
            forall|q: int| #[trigger] bit(d.sq, q) ==> aligned_spec(n, q, t as int),
            forall|ii: int| 0 <= ii < sqs.len() ==> #[trigger] bit(d.sq, sqs@[ii] as int) && sqs@[ii] < 64,
            0 <= i <= sqs.len(),
            forall|x: int| #[trigger] bit(path, x) <==> exists|ii: int| 0 <= ii < i && between_spec(n, sqs@[ii] as int, t as int, x),
        decreases sqs.len() - i,
    {
        proof {
            assert(bit(d.sq, sqs@[i as int] as int));
            assert(sqs@[i as int] < setup.area_spec());
        }
        let b = between_mask(setup, sqs[i], t);
        proof {
            lemma_bits(path, b);
            assert forall|x: int| #[trigger] bit(path | b, x) <==> exists|ii: int| 0 <= ii < i + 1 && between_spec(n, sqs@[ii] as int, t as int, x) by {
                if exists|ii: int| 0 <= ii < i + 1 && between_spec(n, sqs@[ii] as int, t as int, x) {
                    let ii = choose|ii: int| 0 <= ii < i + 1 && between_spec(n, sqs@[ii] as int, t as int, x);
                    if ii < i {
                        assert(bit(path, x));
                    }
                }
            }
        }
        path = path | b;
        i += 1;
    }
    proof {
        assert forall|x: int| #[trigger] bit(path, x) <==> exists|o: int| bit(d.sq, o) && #[trigger] between_spec(n, o, t as int, x) by {
            if exists|o: int| bit(d.sq, o) && #[trigger] between_spec(n, o, t as int, x) {
                let o = choose|o: int| bit(d.sq, o) && #[trigger] between_spec(n, o, t as int, x);
                let ii = choose|ii: int| 0 <= ii < sqs.len() && sqs@[ii] == o;
                assert(between_spec(n, sqs@[ii] as int, t as int, x));
            }
            if bit(path, x) {
                let ii = choose|ii: int| 0 <= ii < i && between_spec(n, sqs@[ii] as int, t as int, x);
                assert(bit(d.sq, sqs@[ii] as int));
            }
        }
    }
    let mut c: usize = 0;
    while c < r.dom.len()
        invariant
            move_ok(setup, *r, s as int, t as int),
            n == setup.n,
            d == r.dom@[s as int],
            !d.cap,
            forall|q: int| #[trigger] bit(d.sq, q) ==> aligned_spec(n, q, t as int),
            forall|x: int| #[trigger] bit(path, x) <==> exists|o: int| bit(d.sq, o) && #[trigger] between_spec(n, o, t as int, x),
            0 <= c <= r.dom.len(),
            forall|cc: int, z: int| 0 <= cc < c && cc != s && #[trigger] bit(r.dom@[cc].sq, z) ==> !bit(path, z),
        decreases r.dom.len() - c,
    {
        let e = r.dom[c];
        proof {
            lemma_bits(e.sq, path);
        }
        if c != s as usize && e.sq & path != 0 {
            proof {
                lemma_bit_nonzero(e.sq & path);
            }
            match e.is_pinned() {
                None => {
                    return Some(Step::Split(split_pin_in(r, c as SlotId, path)));
                },
                Some(x) => {
                    // Origins beyond the blocker on its ray are cut off.
                    proof {
                        let z = (e.sq & path).trailing_zeros() as int;
                        assert(bit(e.sq, z) && bit(path, z));
                        assert(z == x);
                        assert(forall|q: int| #[trigger] bit(d.sq, q) ==> q < setup.area_spec()) by {
                            assert forall|q: int| #[trigger] bit(d.sq, q) implies q < setup.area_spec() by {
                                assert(bit(r.dom@[s as int].sq, q));
                            }
                        }
                    }
                    let keep = unblocked(setup, d, t, x);
                    if keep == 0 {
                        proof {
                            lemma_bit_empty();
                            assert forall|p: Seq<Option<Sq>>| #[trigger] member(r.dom@, p) implies outcome(setup, p, s as int, t)
                                == None::<bool> by {
                                assert(placed(r.dom@[s as int], p[s as int]));
                                assert(placed(r.dom@[c as int], p[c as int]));
                                let o = p[s as int]->Some_0 as int;
                                assert(bit(d.sq, o));
                                assert(!bit(keep, o));
                                assert(p[c as int] == Some(x)) by {
                                    if p[c as int] is Some {
                                        assert(bit(e.sq, p[c as int]->Some_0 as int));
                                    }
                                }
                                assert(!clear_spec(n, p, o, t as int));
                            }
                        }
                        return Some(Step::Decided(None));
                    }
                    proof {
                        lemma_bit_empty();
                        let o = choose|o: int| bit(d.sq, o) && #[trigger] between_spec(n, o, t as int, x as int);
                        assert(!bit(keep, o));
                        lemma_bits(d.sq, keep);
                        assert(bit(d.sq & !keep, o));
                        lemma_bit_nonzero(keep);
                        let z = keep.trailing_zeros() as int;
                        assert(bit(d.sq & keep, z));
                    }
                    // Both parts: the cut-off origins decide "no move" next.
                    return Some(Step::Split(split_mask(r, s, keep)));
                },
            }
        }
        proof {
            lemma_bit_empty();
            assert forall|z: int| c != s && #[trigger] bit(r.dom@[c as int].sq, z) implies !bit(path, z) by {
                assert(!bit(e.sq & path, z));
            }
        }
        c += 1;
    }
    proof {
        assert forall|p: Seq<Option<Sq>>| #[trigger] member(r.dom@, p) implies clear_spec(n, p, p[s as int]->Some_0 as int, t as int) by {
            assert(placed(r.dom@[s as int], p[s as int]));
            let o = p[s as int]->Some_0 as int;
            assert forall|cc: int| 0 <= cc < p.len() && (#[trigger] p[cc]) is Some implies !between_spec(n, o, t as int, p[cc]->Some_0 as int) by {
                assert(placed(r.dom@[cc], p[cc]));
                if cc != s {
                    assert(bit(r.dom@[cc].sq, p[cc]->Some_0 as int));
                    if between_spec(n, o, t as int, p[cc]->Some_0 as int) {
                        assert(bit(path, p[cc]->Some_0 as int));
                    }
                }
            }
        }
    }
    None
}

/// One refinement step towards deciding whether slot `s` can legally move
/// to `t` on all of `r`.
fn step(setup: &Setup, r: &Region, s: SlotId, t: Sq) -> (st: Step<CanMove>)
    requires
        move_ok(setup, *r, s as int, t as int),
    ensures
        step_sound(setup, *r, s as int, t, st),
{
    let ghost n = setup.n;
    proof {
        lemma_area(setup);
        lemma_bit_empty();
    }
    let stm = r.stm;
    let enemy = stm.flip();
    let own_k = setup.king_slot(stm);
    let d = r.dom[s as usize];
    // 1. The mover must be present.
    if d.is_captured() {
        proof {
            assert forall|p: Seq<Option<Sq>>| #[trigger] member(r.dom@, p) implies outcome(setup, p, s as int, t) == None::<bool> by {
                assert(placed(d, p[s as int]));
                if p[s as int] is Some {
                    assert(bit(d.sq, p[s as int]->Some_0 as int));
                }
            }
        }
        return Step::Decided(None);
    }
    if d.cap {
        return Step::Split(split_presence(r, s));
    }
    // 2. Only origins that reach `t`.
    let geom = if setup.kind(s) == Kind::King {
        adjacent_mask(setup, t)
    } else {
        aligned_mask(setup, t)
    };
    proof {
        lemma_bits(d.sq, geom);
    }
    if d.sq & geom == 0 {
        proof {
            assert forall|p: Seq<Option<Sq>>| #[trigger] member(r.dom@, p) implies outcome(setup, p, s as int, t) == None::<bool> by {
                assert(placed(d, p[s as int]));
                let o = p[s as int]->Some_0 as int;
                assert(bit(d.sq, o));
                assert(!bit(d.sq & geom, o));
                assert(o < setup.area_spec()) by {
                    assert(bit(r.dom@[s as int].sq, o));
                }
            }
        }
        return Step::Decided(None);
    }
    if d.sq & !geom != 0 {
        return Step::Split(split_mask(r, s, geom));
    }
    proof {
        assert forall|q: int| #[trigger] bit(d.sq, q) implies bit(geom, q) by {
            assert(!bit(d.sq & !geom, q));
        }
    }
    // 3. Occupancy of `t`: own pieces and the enemy king forbid it, an
    //    enemy rook is captured.
    let capture = match scan_target(setup, r, s, t, geom) {
        Ok(c) => c,
        Err(st) => {
            return st;
        },
    };
    // 4. A rook needs a clear path from every remaining origin.
    if setup.kind(s) == Kind::Rook {
        if let Some(st) = scan_path(setup, r, s, t) {
            return st;
        }
    }
    // 5. Own king not attacked afterwards.
    let ghost path_clear = setup.kind_spec(s as int) == Kind::Rook;
    let view = AfterView { r, mover: Some((s, t)), captured: capture };
    proof {
        assert(setup.color_spec(own_k as int) == stm);
        assert(own_k == s || !r.dom@[own_k as int].cap);
        assert(!view.dom_spec(own_k as int).cap);
    }
    let att = view.attacked(setup, own_k, enemy);
    proof {
        assert forall|p: Seq<Option<Sq>>| #[trigger] member(r.dom@, p) implies {
            &&& reaches(setup, p, s as int, t as int)
            &&& takeable(setup, p, s as int, t)
            &&& occupant(p, t) == capture
            &&& view.pos_spec(p) == after_move(p, s as int, t)
        } by {
            assert(placed(d, p[s as int]));
            let o = p[s as int]->Some_0 as int;
            assert(bit(d.sq, o) && bit(geom, o));
            assert(view.pos_spec(p) =~= after_move(p, s as int, t));
        }
    }
    match att {
        Step::Decided(true) => Step::Decided(None),
        Step::Decided(false) => Step::Decided(Some(capture.is_some())),
        Step::Split(ch) => Step::Split(ch),
    }
}

/// The domains of each decided part.
pub open spec fn outcome_doms(v: Seq<(Region, CanMove)>) -> Seq<Seq<Dom>> {
    map_doms(v, |x: (Region, CanMove)| x.0.dom@)
}

/// Part `i` is a tidy part of `r` on whose every position the move has
/// the recorded outcome.
pub open spec fn decided_part(setup: &Setup, r: Region, s: int, t: Sq, v: Seq<(Region, CanMove)>, i: int) -> bool {
    &&& part_of(r, v[i].0)
    &&& forall|p: Seq<Option<Sq>>| #[trigger] member(v[i].0.dom@, p) ==> outcome(setup, p, s, t) == v[i].1
}

fn copy_region(r: &Region) -> (c: Region)
    ensures
        c.dom@ == r.dom@,
        c.stm == r.stm,
{
    let dom = r.dom.clone();
    proof {
        assert(dom@ =~= r.dom@);
    }
    Region { dom, stm: r.stm }
}

/// Partition `r` by whether slot `s` can legally move to `t`.
pub fn can_move(setup: &Setup, r: Region, s: SlotId, t: Sq) -> (out: Vec<(Region, CanMove)>)
    requires
        move_ok(setup, r, s as int, t as int),
    ensures
        splits(outcome_doms(out@), members(r.dom@)),
        forall|i: int| 0 <= i < out.len() ==> #[trigger] decided_part(setup, r, s as int, t, out@, i),
    decreases region_facts(r.dom@),
{
    let st = step(setup, &r, s, t);
    match st {
        Step::Decided(x) => {
            let ghost rr = r;
            let mut v: Vec<(Region, CanMove)> = Vec::new();
            v.push((r, x));
            proof {
                assert(outcome_doms(v@) =~= seq![rr.dom@]);
                crate::narrow::lemma_splits_single(rr.dom@);
                crate::narrow::lemma_within_refl(rr.dom@);
                assert(decided_part(setup, rr, s as int, t, v@, 0));
            }
            v
        },
        Step::Split(children) => {
            let mut out: Vec<(Region, CanMove)> = Vec::new();
            let mut i: usize = 0;
            while i < children.len()
                invariant
                    move_ok(setup, r, s as int, t as int),
                    refines(r, children@),
                    shrinks(r, children@),
                    0 <= i <= children.len(),
                    disjoint(outcome_doms(out@)),
                    forall|p: Seq<Option<Sq>>| #[trigger] in_some(outcome_doms(out@), p) <==> in_some(region_doms(children@.subrange(0, i as int)), p),
                    forall|j: int| 0 <= j < out.len() ==> #[trigger] decided_part(setup, r, s as int, t, out@, j),
                decreases children.len() - i,
            {
                let c = copy_region(&children[i]);
                proof {
                    assert(part_of(r, children@[i as int]));
                    assert(region_facts(children@[i as int].dom@) < region_facts(r.dom@));
                    assert forall|k: int, q: int| 0 <= k < c.dom.len() && #[trigger] bit(c.dom@[k].sq, q) implies q < setup.area_spec() by {
                        assert(dom_within(c.dom@[k], r.dom@[k]));
                        assert(bit(r.dom@[k].sq, q));
                    }
                    assert forall|k: int| 0 <= k < c.dom.len() && (#[trigger] setup.slots@[k]).1 == Kind::King implies !c.dom@[k].cap by {
                        assert(dom_within(c.dom@[k], r.dom@[k]));
                    }
                }
                let mut sub = can_move(setup, c, s, t);
                let ghost old_out = out@;
                let ghost sub_v = sub@;
                proof {
                    assert forall|p: Seq<Option<Sq>>| !(#[trigger] in_some(outcome_doms(old_out), p) && in_some(outcome_doms(sub_v), p)) by {
                        if in_some(outcome_doms(old_out), p) && in_some(outcome_doms(sub_v), p) {
                            let pre = region_doms(children@.subrange(0, i as int));
                            let a = choose|a: int| 0 <= a < pre.len() && #[trigger] member(pre[a], p);
                            assert(members(c.dom@)(p));
                            assert(member(region_doms(children@)[a], p));
                            assert(member(region_doms(children@)[i as int], p));
                        }
                    }
                    lemma_disjoint_concat(outcome_doms(old_out), outcome_doms(sub_v));
                }
                out.append(&mut sub);
                proof {
                    assert(outcome_doms(out@) =~= outcome_doms(old_out) + outcome_doms(sub_v));
                    assert forall|p: Seq<Option<Sq>>| #[trigger] in_some(outcome_doms(out@), p) <==> in_some(
                        region_doms(children@.subrange(0, i + 1)),
                        p,
                    ) by {
                        let pre = region_doms(children@.subrange(0, i as int));
                        let nxt = region_doms(children@.subrange(0, i + 1));
                        assert(nxt =~= pre.push(children@[i as int].dom@));
                        if in_some(nxt, p) {
                            let a = choose|a: int| 0 <= a < nxt.len() && #[trigger] member(nxt[a], p);
                            if a < i {
                                assert(member(pre[a], p));
                            } else {
                                assert(members(c.dom@)(p));
                            }
                        }
                        if in_some(pre, p) {
                            let a = choose|a: int| 0 <= a < pre.len() && #[trigger] member(pre[a], p);
                            assert(member(nxt[a], p));
                        }
                        if in_some(outcome_doms(sub_v), p) {
                            assert(members(c.dom@)(p));
                            assert(member(nxt[i as int], p));
                        }
                    }
                    assert forall|j: int| 0 <= j < out.len() implies #[trigger] decided_part(setup, r, s as int, t, out@, j) by {
                        if j < old_out.len() {
                            assert(decided_part(setup, r, s as int, t, old_out, j));
                            assert(out@[j] == old_out[j]);
                        } else {
                            let k = j - old_out.len();
                            assert(out@[j] == sub_v[k]);
                            assert(decided_part(setup, c, s as int, t, sub_v, k));
                            lemma_within_trans(sub_v[k].0.dom@, c.dom@, r.dom@);
                        }
                    }
                }
                i += 1;
            }
            proof {
                assert(children@.subrange(0, children.len() as int) =~= children@);
                assert forall|p: Seq<Option<Sq>>| #[trigger] in_some(outcome_doms(out@), p) <==> members(r.dom@)(p) by {
                    assert(in_some(region_doms(children@), p) <==> members(r.dom@)(p));
                }
            }
            out
        },
    }
}

// ---------------------------------------------------------------------
// Successors and pullbacks of decided moves
// ---------------------------------------------------------------------

/// Slot `v` is an enemy (of `stm`) pinned at `t`.
pub open spec fn victim_at(setup: &Setup, doms: Seq<Dom>, stm: Color, t: Sq, v: int) -> bool {
    &&& 0 <= v < doms.len()
    &&& setup.color_spec(v) == flip_spec(stm)
    &&& pinned_at(doms[v], t as int)
}

/// The enemy slot pinned at `t`.
pub open spec fn the_victim(setup: &Setup, doms: Seq<Dom>, stm: Color, t: Sq) -> int {
    choose|v: int| victim_at(setup, doms, stm, t, v)
}

/// The domains after slot `s` moves to `t` on `r`: the mover pinned at
/// `t`, the enemy pinned there captured.
pub open spec fn played_doms(setup: &Setup, r: Region, s: int, t: Sq, capture: bool) -> Seq<Dom> {
    let q = r.dom@.update(s, Dom { sq: 1u64 << t, cap: false });
    if capture {
        q.update(the_victim(setup, r.dom@, r.stm, t), Dom { sq: 0, cap: true })
    } else {
        q
    }
}

/// On tidy domains at most one slot is pinned at a square.
proof fn lemma_victim_unique(setup: &Setup, doms: Seq<Dom>, stm: Color, t: Sq, v: int)
    requires
        tidy(doms),
        victim_at(setup, doms, stm, t, v),
    ensures
        the_victim(setup, doms, stm, t) == v,
        victim_at(setup, doms, stm, t, the_victim(setup, doms, stm, t)),
{
    let w = the_victim(setup, doms, stm, t);
    if w != v {
        assert(pinned_at(doms[v], t as int));
        assert(bit(doms[w].sq, t as int));
    }
}

/// The enemy slot pinned at `t`, if any.
fn find_victim(setup: &Setup, r: &Region, t: Sq) -> (v: Option<SlotId>)
    requires
        setup.wf(),
        r.dom.len() == setup.slots.len(),
    ensures
        v matches Some(x) ==> victim_at(setup, r.dom@, r.stm, t, x as int),
        v is None ==> forall|x: int| !victim_at(setup, r.dom@, r.stm, t, x),
{
    let enemy = r.stm.flip();
    let cands = setup.slots_of(enemy);
    proof {
        lemma_slots_of_upto(setup.slots@, enemy, setup.slots.len() as int);
    }
    let mut i: usize = 0;
    while i < cands.len()
        invariant
            setup.wf(),
            r.dom.len() == setup.slots.len(),
            enemy == flip_spec(r.stm),
            cands@ == slots_of_spec(setup.slots@, enemy),
            forall|j: int| 0 <= j < cands.len() ==> (#[trigger] cands@[j]) < setup.slots.len() && setup.slots@[cands@[j] as int].0 == enemy,
            forall|x: int| 0 <= x < setup.slots.len() && setup.slots@[x].0 == enemy ==> #[trigger] slots_of_spec(setup.slots@, enemy).contains(x as SlotId),
            0 <= i <= cands.len(),
            forall|j: int| 0 <= j < i ==> !#[trigger] pinned_at(r.dom@[cands@[j] as int], t as int),
        decreases cands.len() - i,
    {
        let v = cands[i];
        let pv = r.dom[v as usize].is_pinned();
        if pv == Some(t) {
            return Some(v);
        }
        proof {
            if let Some(t2) = pv {
                assert(bit(r.dom@[v as int].sq, t2 as int));
            }
        }
        i += 1;
    }
    proof {
        assert forall|x: int| !victim_at(setup, r.dom@, r.stm, t, x) by {
            if victim_at(setup, r.dom@, r.stm, t, x) {
                assert(cands@.contains(x as SlotId));
                let j = choose|j: int| 0 <= j < cands.len() && cands@[j] == x as SlotId;
                assert(!pinned_at(r.dom@[cands@[j] as int], t as int));
            }
        }
    }
    None
}

/// A position on which the move is legal lands, after it, in the played
/// domains.
proof fn lemma_after_member(setup: &Setup, r: Region, s: int, t: Sq, capture: bool, p: Seq<Option<Sq>>)
    requires
        move_ok(setup, r, s, t as int),
        capture ==> exists|v: int| victim_at(setup, r.dom@, r.stm, t, v),
        member(r.dom@, p),
        outcome(setup, p, s, t) == Some(capture),
    ensures
        member(played_doms(setup, r, s, t, capture), after_move(p, s, t)),
        capture ==> occupant(p, t) == Some(the_victim(setup, r.dom@, r.stm, t) as SlotId),
        !capture ==> occupant(p, t) is None,
{
    lemma_area(setup);
    lemma_bit_single(t as u64);
    lemma_bit_empty();
    let pd = played_doms(setup, r, s, t, capture);
    let a = after_move(p, s, t);
    if capture {
        let v = choose|v: int| victim_at(setup, r.dom@, r.stm, t, v);
        lemma_victim_unique(setup, r.dom@, r.stm, t, v);
        assert(placed(r.dom@[v], p[v]));
        assert(p[v] == Some(t)) by {
            if p[v] is Some {
                assert(bit(r.dom@[v].sq, p[v]->Some_0 as int));
            }
        }
        lemma_occupant_is(p, t, v);
        assert(v != s);
    }
    assert forall|k: int| 0 <= k < a.len() implies #[trigger] placed(pd[k], a[k]) by {
        assert(placed(r.dom@[k], p[k]));
    }
    assert forall|i: int, j: int| 0 <= i < j < a.len() && (#[trigger] a[i]) is Some implies a[i] != #[trigger] a[j] by {
        if a[j] is Some && a[i] == a[j] {
            if i == s || j == s {
                let k = if i == s { j } else { i };
                assert(p[k] == Some(t));
                if capture {
                    let v = the_victim(setup, r.dom@, r.stm, t);
                    assert(k != v);
                    if k < v {
                        assert(p[k] != p[v]);
                    } else {
                        assert(p[v] != p[k]);
                    }
                } else {
                    lemma_occ_from(p, t, 0);
                }
            } else {
                assert(p[i] != p[j]);
            }
        }
    }
    if !capture {
        assert(occupant(p, t) is None);
    }
}

/// The successor region of a decided-yes case.
pub fn play(setup: &Setup, r: &Region, s: SlotId, t: Sq, capture: bool) -> (c: Region)
    requires
        move_ok(setup, *r, s as int, t as int),
        capture ==> exists|v: int| victim_at(setup, r.dom@, r.stm, t, v),
        exists|p: Seq<Option<Sq>>| member(r.dom@, p) && outcome(setup, p, s as int, t) == Some(capture),
    ensures
        c.stm == flip_spec(r.stm),
        tidy(c.dom@),
        doms_within(c.dom@, played_doms(setup, *r, s as int, t, capture)),
        forall|q: Seq<Option<Sq>>| #[trigger] member(c.dom@, q) <==> member(played_doms(setup, *r, s as int, t, capture), q),
        forall|p: Seq<Option<Sq>>|
            #[trigger] member(r.dom@, p) && outcome(setup, p, s as int, t) == Some(capture) ==> member(c.dom@, after_move(p, s as int, t)),
{
    proof {
        lemma_area(setup);
    }
    let mut c = copy_region(r);
    c.dom.set(s as usize, Dom::pinned(t));
    if capture {
        let victim = find_victim(setup, r, t);
        proof {
            let v = choose|v: int| victim_at(setup, r.dom@, r.stm, t, v);
            lemma_victim_unique(setup, r.dom@, r.stm, t, v);
            assert(victim is Some);
            lemma_victim_unique(setup, r.dom@, r.stm, t, victim->Some_0 as int);
        }
        let v = victim.unwrap();
        c.dom.set(v as usize, Dom::captured());
    }
    c.stm = r.stm.flip();
    let ghost pd = c.dom@;
    proof {
        assert(pd =~= played_doms(setup, *r, s as int, t, capture));
    }
    let ok = c.normalize();
    proof {
        let p = choose|p: Seq<Option<Sq>>| member(r.dom@, p) && outcome(setup, p, s as int, t) == Some(capture);
        lemma_after_member(setup, *r, s as int, t, capture, p);
        assert(member(c.dom@, after_move(p, s as int, t)));
        assert forall|p: Seq<Option<Sq>>|
            #[trigger] member(r.dom@, p) && outcome(setup, p, s as int, t) == Some(capture) implies member(c.dom@, after_move(p, s as int, t)) by {
            lemma_after_member(setup, *r, s as int, t, capture, p);
        }
    }
    c
}

/// The positions of `case` whose successor lies in `child` (a part of
/// `play(case, s, t, capture)`): a product again.
pub fn pullback(setup: &Setup, case: &Region, child: &Region, s: SlotId, t: Sq, capture: bool) -> (r: Option<Region>)
    requires
        move_ok(setup, *case, s as int, t as int),
        capture ==> exists|v: int| victim_at(setup, case.dom@, case.stm, t, v),
        forall|p: Seq<Option<Sq>>| #[trigger] member(case.dom@, p) ==> outcome(setup, p, s as int, t) == Some(capture),
        tidy(child.dom@),
        doms_within(child.dom@, played_doms(setup, *case, s as int, t, capture)),
    ensures
        r matches Some(x) ==> {
            &&& x.stm == case.stm
            &&& tidy(x.dom@)
            &&& doms_within(x.dom@, case.dom@)
            &&& forall|p: Seq<Option<Sq>>| #[trigger] member(x.dom@, p) <==> member(case.dom@, p) && member(child.dom@, after_move(p, s as int, t))
        },
        r is None ==> forall|p: Seq<Option<Sq>>| !(#[trigger] member(case.dom@, p) && member(child.dom@, after_move(p, s as int, t))),
{
    proof {
        lemma_area(setup);
        lemma_bit_single(t as u64);
        lemma_bit_empty();
    }
    let ghost n = setup.n;
    let ghost cd = case.dom@;
    let ghost hd = child.dom@;
    let ghost pdoms = played_doms(setup, *case, s as int, t, capture);
    let mut r = copy_region(child);
    r.dom.set(s as usize, case.dom[s as usize]);
    let ghost vic: int = -1;
    if capture {
        let victim = find_victim(setup, case, t);
        proof {
            let v = choose|v: int| victim_at(setup, case.dom@, case.stm, t, v);
            lemma_victim_unique(setup, case.dom@, case.stm, t, v);
            assert(victim is Some);
            lemma_victim_unique(setup, case.dom@, case.stm, t, victim->Some_0 as int);
        }
        let v = victim.unwrap();
        r.dom.set(v as usize, Dom::pinned(t));
        proof {
            vic = v as int;
        }
    }
    r.stm = case.stm;
    let ghost ud = r.dom@;
    proof {
        // the child's mover is pinned at `t`, its victim captured
        assert(dom_within(hd[s as int], pdoms[s as int]));
        assert(!hd[s as int].cap);
        assert(hd[s as int].sq != 0) by {
            assert(!some_empty(hd));
        }
        lemma_bit_nonzero(hd[s as int].sq);
        assert(pinned_at(hd[s as int], t as int)) by {
            let z = hd[s as int].sq.trailing_zeros() as int;
            assert(bit(pdoms[s as int].sq, z));
        }
        if capture {
            assert(vic == the_victim(setup, cd, case.stm, t));
            assert(vic != s);
            assert(dom_within(hd[vic], pdoms[vic]));
            assert(hd[vic].cap) by {
                assert(!some_empty(hd));
                if hd[vic].sq != 0 {
                    lemma_bit_nonzero(hd[vic].sq);
                    assert(bit(pdoms[vic].sq, hd[vic].sq.trailing_zeros() as int));
                }
            }
        }
        assert forall|k: int| 0 <= k < cd.len() && k != s && !(capture && k == vic) implies #[trigger] dom_within(hd[k], cd[k]) by {
            assert(dom_within(hd[k], pdoms[k]));
        }
        // the positions of the pulled-back domains
        assert forall|p: Seq<Option<Sq>>| #[trigger] member(ud, p) <==> member(cd, p) && member(hd, after_move(p, s as int, t)) by {
            let a = after_move(p, s as int, t);
            if member(cd, p) && member(hd, a) {
                lemma_after_member(setup, *case, s as int, t, capture, p);
                assert forall|k: int| 0 <= k < p.len() implies #[trigger] placed(ud[k], p[k]) by {
                    assert(placed(cd[k], p[k]));
                    assert(placed(hd[k], a[k]));
                    if capture && k == vic {
                        assert(p[k] == Some(t)) by {
                            if p[k] is Some {
                                assert(bit(cd[k].sq, p[k]->Some_0 as int));
                            }
                        }
                    }
                }
            }
            if member(ud, p) {
                assert forall|k: int| 0 <= k < p.len() implies #[trigger] placed(cd[k], p[k]) by {
                    assert(placed(ud[k], p[k]));
                    if k == s {
                        assert(ud[k] == cd[k]);
                    }
                    if k != s && !(capture && k == vic) {
                        assert(ud[k] == hd[k]);
                        assert(dom_within(hd[k], cd[k]));
                        if p[k] is Some {
                            assert(bit(hd[k].sq, p[k]->Some_0 as int));
                        }
                    }
                    if capture && k == vic {
                        assert(pinned_at(cd[k], t as int));
                        assert(p[k] == Some(t)) by {
                            if p[k] is Some {
                                assert(bit(ud[k].sq, p[k]->Some_0 as int));
                            }
                        }
                    }
                }
                assert(member(cd, p));
                lemma_after_member(setup, *case, s as int, t, capture, p);
                assert forall|k: int| 0 <= k < a.len() implies #[trigger] placed(hd[k], a[k]) by {
                    assert(placed(ud[k], p[k]));
                }
                assert forall|i: int, j: int| 0 <= i < j < a.len() && (#[trigger] a[i]) is Some implies a[i] != #[trigger] a[j] by {
                    if a[j] is Some && a[i] == a[j] {
                        if i == s || j == s {
                            let k = if i == s { j } else { i };
                            assert(placed(ud[k], p[k]));
                            assert(bit(hd[k].sq, t as int));
                        } else {
                            assert(p[i] != p[j]);
                        }
                    }
                }
            }
        }
    }
    if r.normalize() {
        proof {
            assert forall|k: int| 0 <= k < r.dom.len() implies #[trigger] dom_within(r.dom@[k], cd[k]) by {
                assert(dom_within(r.dom@[k], ud[k]));
                if k == s {
                } else if capture && k == vic {
                    assert(pinned_at(cd[k], t as int));
                } else {
                    assert(dom_within(hd[k], cd[k]));
                }
            }
        }
        Some(r)
    } else {
        proof {
            assert forall|p: Seq<Option<Sq>>| !(#[trigger] member(case.dom@, p) && member(child.dom@, after_move(p, s as int, t))) by {
                if member(cd, p) && member(hd, after_move(p, s as int, t)) {
                    assert(member(ud, p));
                    assert(member(r.dom@, p));
                }
            }
        }
        None
    }
}

} // verus!
