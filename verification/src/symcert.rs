//! Symbolic check of the nonloss certificate: evaluate the feature DAG and
//! its obligations over superposed regions instead of one concrete position
//! at a time. The recording oracle answers what a region decides and forks
//! it on the first undecided query, so every leaf here is a set of
//! positions that the certificate treats identically *for the facts it
//! actually consulted*. The leaf count against the position count measures
//! how far verification can get without enumerating the game.

use vstd::prelude::*;
use crate::board::{
    Blocked, Color, Move, Position, Res, Setup, Sq, flip_spec, in_check, in_check_spec, legal_moves,
    legal_moves_spec, errs_within, fits, moves_ok, lemma_legal_moves_ok, lemma_in_check_errs, lemma_legal_moves_errs,
    play_spec,
};
use crate::cert::{
    Roles, NFEAT, eval_res, feature_fn, roles_spec, one_rook, evaluate_at, lemma_eval_errs, consulted, safe,
    safe_spec,
};
use crate::certs::Cert;
use crate::narrow::{
    Region, Rec, RecLog, Pattern, Dom, rec_answers, member, members, splits, in_some, disjoint, map_doms, fine,
    doms_within, tidy, region_facts, open_in, open_query, lemma_within_fine, lemma_fork_splits, lemma_rec_errs,
    lemma_disjoint_concat, lemma_within_trans, lemma_within_member, move_fits, decided_move, play_doms, pullback_doms,
    lemma_legal_moves_decided, lemma_decided_within, normalized, some_empty, dom_within, bit, lemma_bit_single,
    reach_set, split3, union_set, lemma_split3_equiv, lemma_split3_push_a, lemma_split3_push_b, lemma_split3_take_first,
    lemma_splits_of_split3, lemma_disjoint_parts, lemma_play_member, lemma_pullback_member, lemma_pullback_covers,
    lemma_pullback_within,
};
use crate::absmove::region_doms;
use crate::retro::{Table, Val, size_spec, count_upto, legal_pred, lemma_position_wf};

verus! {

/// A region with a boolean answer (membership, or an obligation's outcome).
pub type Parts = Vec<(Region, bool)>;

/// The domains of each part.
pub open spec fn parts_doms(v: Seq<(Region, bool)>) -> Seq<Seq<Dom>> {
    map_doms(v, |x: (Region, bool)| x.0.dom@)
}

/// What the certificate's walk answers over the recording oracle of a
/// region: membership, or the first query the region leaves open.
pub open spec fn region_member(setup: &Setup, cert: &Cert, roles: Roles, doms: Seq<Dom>, stm: Color) -> Res<bool> {
    eval_res(cert, feature_fn(setup, rec_answers(doms), stm, roles), cert.root as int)
}

/// Some fine part of `doms` holding `p` decides that the side not to move
/// is in check.
pub open spec fn dropped_at(setup: &Setup, doms: Seq<Dom>, stm: Color, p: Seq<Option<Sq>>) -> bool {
    exists|d: Seq<Dom>|
        #[trigger] member(d, p) && fine(setup, d) && doms_within(d, doms) && in_check_spec(setup, rec_answers(d), flip_spec(stm))
            == Ok::<bool, Blocked>(true)
}

pub struct Sym<'a> {
    pub setup: &'a Setup,
    pub cert: &'a Cert,
    pub roles: Roles,
    pub queries: u64,
    pub forks: u64,
}

impl<'a> Sym<'a> {
    pub open spec fn wf(&self) -> bool {
        &&& self.setup.wf()
        &&& self.cert.wf()
        &&& self.roles.wf(self.setup)
    }

    pub fn new(setup: &'a Setup, cert: &'a Cert, protected: Color) -> (s: Sym<'a>)
        requires
            setup.wf(),
            cert.wf(),
            one_rook(setup.slots@, Color::White),
            one_rook(setup.slots@, Color::Black),
        ensures
            s.wf(),
            s.setup == setup,
            s.cert == cert,
            s.roles == roles_spec(setup, protected),
            s.queries == 0,
            s.forks == 0,
    {
        Sym { setup, cert, roles: Roles::new(setup, protected), queries: 0, forks: 0 }
    }

    /// Partition `r` by certificate membership.
    pub fn classify(&mut self, r: Region) -> (out: Parts)
        requires
            old(self).wf(),
            fine(old(self).setup, r.dom@),
        ensures
            final(self).wf(),
            final(self).setup == old(self).setup,
            final(self).cert == old(self).cert,
            final(self).roles == old(self).roles,
            splits(parts_doms(out@), members(r.dom@)),
            forall|i: int|
                0 <= i < out.len() ==> {
                    &&& fine(old(self).setup, (#[trigger] out@[i]).0.dom@)
                    &&& doms_within(out@[i].0.dom@, r.dom@)
                    &&& out@[i].0.stm == r.stm
                    &&& region_member(old(self).setup, old(self).cert, old(self).roles, out@[i].0.dom@, r.stm) == Ok::<bool, Blocked>(out@[i].1)
                },
        decreases region_facts(r.dom@),
    {
        let ghost setup = self.setup;
        let mut log = RecLog { pattern: Pattern::full(self.setup), queries: 0 };
        proof {
            r.lemma_rec_fits(self.setup);
            lemma_rec_errs(r.dom@);
        }
        let res = {
            let rec = Rec { r: &r };
            evaluate_at(self.setup, self.cert, &rec, &mut log, r.stm, &self.roles)
        };
        self.queries = self.queries.saturating_add(log.queries);
        match res {
            Ok(b) => {
                let ghost rr = r;
                let mut v: Parts = Vec::new();
                v.push((r, b));
                proof {
                    assert(parts_doms(v@) =~= seq![rr.dom@]);
                    crate::narrow::lemma_splits_single(rr.dom@);
                    crate::narrow::lemma_within_refl(rr.dom@);
                }
                v
            },
            Err(q) => {
                proof {
                    lemma_eval_errs(setup, self.cert, rec_answers(r.dom@), open_in(r.dom@), r.stm, self.roles, self.cert.root as int);
                    assert(open_query(r.dom@, q));
                    if let Blocked::At(t) = q {
                        let k = choose|k: int| 0 <= k < r.dom.len() && crate::narrow::bit(r.dom@[k].sq, t as int) && #[trigger] crate::narrow::unpinned(r.dom@[k]);
                    }
                }
                self.forks = self.forks.saturating_add(1);
                let children = r.fork(q);
                proof {
                    lemma_fork_splits(&r, children@);
                }
                let mut out: Parts = Vec::new();
                let mut i: usize = 0;
                while i < children.len()
                    invariant
                        self.wf(),
                        setup == self.setup,
                        self.cert == old(self).cert,
                        self.roles == old(self).roles,
                        self.setup == old(self).setup,
                        fine(setup, r.dom@),
                        splits(region_doms(children@), members(r.dom@)),
                        forall|j: int|
                            0 <= j < children.len() ==> (#[trigger] children@[j]).stm == r.stm && doms_within(children@[j].dom@, r.dom@)
                                && tidy(children@[j].dom@) && region_facts(children@[j].dom@) < region_facts(r.dom@),
                        0 <= i <= children.len(),
                        disjoint(parts_doms(out@)),
                        forall|p: Seq<Option<Sq>>| #[trigger] in_some(parts_doms(out@), p) <==> in_some(region_doms(children@.subrange(0, i as int)), p),
                        forall|j: int|
                            0 <= j < out.len() ==> {
                                &&& fine(setup, (#[trigger] out@[j]).0.dom@)
                                &&& doms_within(out@[j].0.dom@, r.dom@)
                                &&& out@[j].0.stm == r.stm
                                &&& region_member(setup, self.cert, self.roles, out@[j].0.dom@, r.stm) == Ok::<bool, Blocked>(out@[j].1)
                            },
                    decreases children.len() - i,
                {
                    let c = Region { dom: children[i].dom.clone(), stm: children[i].stm };
                    proof {
                        assert(c.dom@ =~= children@[i as int].dom@);
                        lemma_within_fine(setup, c.dom@, r.dom@);
                    }
                    let mut sub = self.classify(c);
                    let ghost old_out = out@;
                    let ghost sub_v = sub@;
                    proof {
                        assert forall|p: Seq<Option<Sq>>| !(#[trigger] in_some(parts_doms(old_out), p) && in_some(parts_doms(sub_v), p)) by {
                            if in_some(parts_doms(old_out), p) && in_some(parts_doms(sub_v), p) {
                                let pre = region_doms(children@.subrange(0, i as int));
                                let a = choose|a: int| 0 <= a < pre.len() && #[trigger] member(pre[a], p);
                                assert(members(c.dom@)(p));
                                assert(member(region_doms(children@)[a], p));
                                assert(member(region_doms(children@)[i as int], p));
                            }
                        }
                        lemma_disjoint_concat(parts_doms(old_out), parts_doms(sub_v));
                    }
                    out.append(&mut sub);
                    proof {
                        assert(parts_doms(out@) =~= parts_doms(old_out) + parts_doms(sub_v));
                        assert forall|p: Seq<Option<Sq>>| #[trigger] in_some(parts_doms(out@), p) <==> in_some(
                            region_doms(children@.subrange(0, i + 1)),
                            p,
                        ) by {
                            let pre = region_doms(children@.subrange(0, i as int));
                            let nxt = region_doms(children@.subrange(0, i + 1));
                            assert(nxt =~= pre.push(children@[i as int].dom@));
                            if in_some(nxt, p) {
                                let a = choose|a: int| 0 <= a < nxt.len() && #[trigger] member(nxt[a], p);
                                if a < i {
                                    assert(member(pre[a], p));
                                } else {
                                    assert(members(c.dom@)(p));
                                }
                            }
                            if in_some(pre, p) {
                                let a = choose|a: int| 0 <= a < pre.len() && #[trigger] member(pre[a], p);
                                assert(member(nxt[a], p));
                            }
                            if in_some(parts_doms(sub_v), p) {
                                assert(members(c.dom@)(p));
                                assert(member(nxt[i as int], p));
                            }
                        }
                        assert forall|j: int| 0 <= j < out.len() implies {
                            &&& fine(setup, (#[trigger] out@[j]).0.dom@)
                            &&& doms_within(out@[j].0.dom@, r.dom@)
                            &&& out@[j].0.stm == r.stm
                            &&& region_member(setup, self.cert, self.roles, out@[j].0.dom@, r.stm) == Ok::<bool, Blocked>(out@[j].1)
                        } by {
                            if j < old_out.len() {
                                assert(out@[j] == old_out[j]);
                            } else {
                                let k = j - old_out.len();
                                assert(out@[j] == sub_v[k]);
                                lemma_within_trans(sub_v[k].0.dom@, c.dom@, r.dom@);
                            }
                        }
                    }
                    i += 1;
                }
                proof {
                    assert(children@.subrange(0, children.len() as int) =~= children@);
                    assert forall|p: Seq<Option<Sq>>| #[trigger] in_some(parts_doms(out@), p) <==> members(r.dom@)(p) by {
                        assert(in_some(region_doms(children@), p) <==> members(r.dom@)(p));
                    }
                }
                out
            },
        }
    }

    /// Drop the positions where the side not to move is in check (illegal).
    pub fn legal(&mut self, r: Region) -> (out: Vec<Region>)
        requires
            old(self).wf(),
            fine(old(self).setup, r.dom@),
        ensures
            final(self).wf(),
            final(self).setup == old(self).setup,
            final(self).cert == old(self).cert,
            final(self).roles == old(self).roles,
            disjoint(region_doms(out@)),
            forall|i: int|
                0 <= i < out.len() ==> {
                    &&& fine(old(self).setup, (#[trigger] out@[i]).dom@)
                    &&& doms_within(out@[i].dom@, r.dom@)
                    &&& out@[i].stm == r.stm
                    &&& in_check_spec(old(self).setup, rec_answers(out@[i].dom@), flip_spec(r.stm)) == Ok::<bool, Blocked>(false)
                },
            forall|p: Seq<Option<Sq>>|
                #[trigger] member(r.dom@, p) && !in_some(region_doms(out@), p) ==> dropped_at(old(self).setup, r.dom@, r.stm, p),
        decreases region_facts(r.dom@),
    {
        let ghost setup = self.setup;
        let mut log = RecLog { pattern: Pattern::full(self.setup), queries: 0 };
        proof {
            r.lemma_rec_fits(self.setup);
            lemma_rec_errs(r.dom@);
        }
        let res = {
            let rec = Rec { r: &r };
            in_check(self.setup, &rec, &mut log, r.stm.flip())
        };
        self.queries = self.queries.saturating_add(log.queries);
        match res {
            Ok(true) => {
                proof {
                    crate::narrow::lemma_within_refl(r.dom@);
                    assert(in_check_spec(setup, rec_answers(r.dom@), flip_spec(r.stm)) == Ok::<bool, Blocked>(true));
                    assert forall|p: Seq<Option<Sq>>| #[trigger] member(r.dom@, p) implies dropped_at(setup, r.dom@, r.stm, p) by {
                        assert(member(r.dom@, p) && fine(setup, r.dom@) && doms_within(r.dom@, r.dom@));
                    }
                }
                let v: Vec<Region> = Vec::new();
                proof {
                    assert(setup == old(self).setup);
                    assert forall|p: Seq<Option<Sq>>|
                        #[trigger] member(r.dom@, p) && !in_some(region_doms(v@), p) implies dropped_at(old(self).setup, r.dom@, r.stm, p) by {
                        assert(dropped_at(setup, r.dom@, r.stm, p));
                    }
                }
                v
            },
            Ok(false) => {
                let ghost rr = r;
                let mut v: Vec<Region> = Vec::new();
                v.push(r);
                proof {
                    assert(region_doms(v@) =~= seq![rr.dom@]);
                    crate::narrow::lemma_within_refl(rr.dom@);
                    assert forall|p: Seq<Option<Sq>>| #[trigger] member(rr.dom@, p) implies in_some(region_doms(v@), p) by {
                        assert(member(region_doms(v@)[0], p));
                    }
                    assert forall|p: Seq<Option<Sq>>|
                        #[trigger] member(rr.dom@, p) && !in_some(region_doms(v@), p) implies dropped_at(old(self).setup, rr.dom@, rr.stm, p) by {
                        assert(in_some(region_doms(v@), p));
                    }
                }
                v
            },
            Err(q) => {
                proof {
                    lemma_in_check_errs(setup, rec_answers(r.dom@), open_in(r.dom@), flip_spec(r.stm));
                    assert(open_query(r.dom@, q));
                    if let Blocked::At(t) = q {
                        let k = choose|k: int| 0 <= k < r.dom.len() && crate::narrow::bit(r.dom@[k].sq, t as int) && #[trigger] crate::narrow::unpinned(r.dom@[k]);
                    }
                }
                self.forks = self.forks.saturating_add(1);
                let children = r.fork(q);
                proof {
                    lemma_fork_splits(&r, children@);
                }
                let mut out: Vec<Region> = Vec::new();
                let mut i: usize = 0;
                while i < children.len()
                    invariant
                        self.wf(),
                        setup == self.setup,
                        self.cert == old(self).cert,
                        self.roles == old(self).roles,
                        self.setup == old(self).setup,
                        fine(setup, r.dom@),
                        splits(region_doms(children@), members(r.dom@)),
                        forall|j: int|
                            0 <= j < children.len() ==> (#[trigger] children@[j]).stm == r.stm && doms_within(children@[j].dom@, r.dom@)
                                && tidy(children@[j].dom@) && region_facts(children@[j].dom@) < region_facts(r.dom@),
                        0 <= i <= children.len(),
                        disjoint(region_doms(out@)),
                        forall|p: Seq<Option<Sq>>| #[trigger] in_some(region_doms(out@), p) ==> in_some(region_doms(children@.subrange(0, i as int)), p),
                        forall|p: Seq<Option<Sq>>|
                            #[trigger] in_some(region_doms(children@.subrange(0, i as int)), p) && !in_some(region_doms(out@), p) ==> dropped_at(setup, r.dom@, r.stm, p),
                        forall|j: int|
                            0 <= j < out.len() ==> {
                                &&& fine(setup, (#[trigger] out@[j]).dom@)
                                &&& doms_within(out@[j].dom@, r.dom@)
                                &&& out@[j].stm == r.stm
                                &&& in_check_spec(setup, rec_answers(out@[j].dom@), flip_spec(r.stm)) == Ok::<bool, Blocked>(false)
                            },
                    decreases children.len() - i,
                {
                    let c = Region { dom: children[i].dom.clone(), stm: children[i].stm };
                    proof {
                        assert(c.dom@ =~= children@[i as int].dom@);
                        lemma_within_fine(setup, c.dom@, r.dom@);
                    }
                    let mut sub = self.legal(c);
                    let ghost old_out = out@;
                    let ghost sub_v = sub@;
                    proof {
                        assert forall|p: Seq<Option<Sq>>| !(#[trigger] in_some(region_doms(old_out), p) && in_some(region_doms(sub_v), p)) by {
                            if in_some(region_doms(old_out), p) && in_some(region_doms(sub_v), p) {
                                let pre = region_doms(children@.subrange(0, i as int));
                                assert(in_some(pre, p));
                                let a = choose|a: int| 0 <= a < pre.len() && #[trigger] member(pre[a], p);
                                let b = choose|b: int| 0 <= b < region_doms(sub_v).len() && #[trigger] member(region_doms(sub_v)[b], p);
                                lemma_within_member(sub_v[b].dom@, c.dom@);
                                assert(member(region_doms(children@)[a], p));
                                assert(member(region_doms(children@)[i as int], p));
                            }
                        }
                        lemma_disjoint_concat(region_doms(old_out), region_doms(sub_v));
                    }
                    out.append(&mut sub);
                    proof {
                        assert(region_doms(out@) =~= region_doms(old_out) + region_doms(sub_v));
                        let pre = region_doms(children@.subrange(0, i as int));
                        let nxt = region_doms(children@.subrange(0, i + 1));
                        assert(nxt =~= pre.push(children@[i as int].dom@));
                        assert forall|p: Seq<Option<Sq>>| #[trigger] in_some(region_doms(out@), p) implies in_some(nxt, p) by {
                            if in_some(region_doms(old_out), p) {
                                assert(in_some(pre, p));
                                let a = choose|a: int| 0 <= a < pre.len() && #[trigger] member(pre[a], p);
                                assert(member(nxt[a], p));
                            } else {
                                let b = choose|b: int| 0 <= b < region_doms(sub_v).len() && #[trigger] member(region_doms(sub_v)[b], p);
                                lemma_within_member(sub_v[b].dom@, c.dom@);
                                assert(member(nxt[i as int], p));
                            }
                        }
                        assert forall|p: Seq<Option<Sq>>|
                            #[trigger] in_some(nxt, p) && !in_some(region_doms(out@), p) implies dropped_at(setup, r.dom@, r.stm, p) by {
                            let a = choose|a: int| 0 <= a < nxt.len() && #[trigger] member(nxt[a], p);
                            if a < i {
                                assert(member(pre[a], p));
                                assert(in_some(pre, p));
                            } else {
                                assert(member(c.dom@, p));
                                assert(dropped_at(setup, c.dom@, r.stm, p));
                                let d = choose|d: Seq<Dom>|
                                    #[trigger] member(d, p) && fine(setup, d) && doms_within(d, c.dom@) && in_check_spec(setup, rec_answers(d), flip_spec(r.stm))
                                        == Ok::<bool, Blocked>(true);
                                lemma_within_trans(d, c.dom@, r.dom@);
                            }
                        }
                        assert forall|j: int| 0 <= j < out.len() implies {
                            &&& fine(setup, (#[trigger] out@[j]).dom@)
                            &&& doms_within(out@[j].dom@, r.dom@)
                            &&& out@[j].stm == r.stm
                            &&& in_check_spec(setup, rec_answers(out@[j].dom@), flip_spec(r.stm)) == Ok::<bool, Blocked>(false)
                        } by {
                            if j < old_out.len() {
                                assert(out@[j] == old_out[j]);
                            } else {
                                let k = j - old_out.len();
                                assert(out@[j] == sub_v[k]);
                                lemma_within_trans(sub_v[k].dom@, c.dom@, r.dom@);
                            }
                        }
                    }
                    i += 1;
                }
                proof {
                    assert(children@.subrange(0, children.len() as int) =~= children@);
                    assert forall|p: Seq<Option<Sq>>|
                        #[trigger] member(r.dom@, p) && !in_some(region_doms(out@), p) implies dropped_at(setup, r.dom@, r.stm, p) by {
                        assert(members(r.dom@)(p));
                        assert(in_some(region_doms(children@), p));
                    }
                }
                out
            },
        }
    }
}

/// Tidy parts of `r` on its board, with its side to move.
pub open spec fn parts_within(setup: &Setup, r: Region, v: Seq<(Region, bool)>) -> bool {
    forall|i: int|
        0 <= i < v.len() ==> fine(setup, (#[trigger] v[i]).0.dom@) && doms_within(v[i].0.dom@, r.dom@) && v[i].0.stm == r.stm
}

impl<'a> Sym<'a> {
    /// One move on one open part: the parts of `sub` whose successor the
    /// certificate classifies as `own`, settled with that answer, and the
    /// others, still open.
    fn try_move(&mut self, sub: &Region, mv: Move, own: bool) -> (res: (Parts, Vec<Region>))
        requires
            old(self).wf(),
            fine(old(self).setup, sub.dom@),
            decided_move(sub.dom@, mv),
            mv.to < old(self).setup.area_spec(),
            mv.from < old(self).setup.area_spec(),
        ensures
            final(self).wf(),
            final(self).setup == old(self).setup,
            final(self).cert == old(self).cert,
            final(self).roles == old(self).roles,
            forall|i: int|
                0 <= i < res.0.len() ==> fine(old(self).setup, (#[trigger] res.0@[i]).0.dom@) && doms_within(res.0@[i].0.dom@, sub.dom@)
                    && res.0@[i].0.stm == sub.stm && res.0@[i].1 == own,
            forall|i: int|
                0 <= i < res.1.len() ==> fine(old(self).setup, (#[trigger] res.1@[i]).dom@) && doms_within(res.1@[i].dom@, sub.dom@)
                    && res.1@[i].stm == sub.stm,
            splits(parts_doms(res.0@) + region_doms(res.1@), members(sub.dom@)),
    {
        let ghost setup = self.setup;
        let ghost sd = sub.dom@;
        let ghost e = Seq::<Seq<Dom>>::empty();
        let mut settled: Parts = Vec::new();
        let mut open: Vec<Region> = Vec::new();
        proof {
            assert(parts_doms(settled@) =~= e);
            assert(region_doms(open@) =~= e);
        }
        let succ = match sub.played(mv) {
            Some(c) => c,
            None => {
                proof {
                    assert forall|p: Seq<Option<Sq>>| !#[trigger] member(sd, p) by {
                        if member(sd, p) {
                            lemma_play_member(sd, mv, p);
                        }
                    }
                    assert(e + e =~= e);
                    assert forall|p: Seq<Option<Sq>>| #[trigger] in_some(e, p) <==> members(sd)(p) by {}
                }
                return (settled, open);
            },
        };
        let ghost cdom = succ.dom@;
        let ghost cstm = succ.stm;
        proof {
            lemma_bit_single(mv.to as u64);
            crate::narrow::lemma_bit_empty();
            crate::absmove::lemma_area_pub(setup);
            assert forall|k: int, q: int| 0 <= k < succ.dom.len() && #[trigger] bit(succ.dom@[k].sq, q) implies q < setup.area_spec() by {
                assert(dom_within(succ.dom@[k], play_doms(sd, mv)[k]));
                if k != mv.slot && mv.capture != Some(k as u8) {
                    assert(bit(sd[k].sq, q));
                }
            }
        }
        let parts = self.classify(succ);
        proof {
            let s0 = reach_set(sd, parts_doms(parts@), mv, 0);
            assert forall|p: Seq<Option<Sq>>| #[trigger] s0(p) == (in_some(e, p) || in_some(e, p) || in_some(e, p)) by {}
        }
        let mut c: usize = 0;
        while c < parts.len()
            invariant
                self.wf(),
                setup == self.setup,
                self.setup == old(self).setup,
                self.cert == old(self).cert,
                self.roles == old(self).roles,
                sd == sub.dom@,
                fine(setup, sd),
                decided_move(sd, mv),
                doms_within(cdom, play_doms(sd, mv)),
                cstm == flip_spec(sub.stm),
                forall|p: Seq<Option<Sq>>| #[trigger] member(cdom, p) <==> member(play_doms(sd, mv), p),
                forall|i: int|
                    0 <= i < parts.len() ==> doms_within((#[trigger] parts@[i]).0.dom@, cdom) && fine(setup, parts@[i].0.dom@)
                        && parts@[i].0.stm == cstm,
                splits(parts_doms(parts@), members(cdom)),
                0 <= c <= parts.len(),
                forall|i: int|
                    0 <= i < settled.len() ==> fine(setup, (#[trigger] settled@[i]).0.dom@) && doms_within(settled@[i].0.dom@, sd)
                        && settled@[i].0.stm == sub.stm && settled@[i].1 == own,
                forall|i: int|
                    0 <= i < open.len() ==> fine(setup, (#[trigger] open@[i]).dom@) && doms_within(open@[i].dom@, sd)
                        && open@[i].stm == sub.stm,
                split3(parts_doms(settled@), region_doms(open@), Seq::empty(), reach_set(sd, parts_doms(parts@), mv, c as int)),
            decreases parts.len() - c,
        {
            let child = &parts[c].0;
            let ok = parts[c].1;
            let ghost pd = parts_doms(parts@);
            let ghost settled_before = settled@;
            let ghost open_before = open@;
            let ghost si = reach_set(sd, pd, mv, c as int);
            let ghost si1 = reach_set(sd, pd, mv, c + 1);
            proof {
                assert(pd[c as int] == child.dom@);
                lemma_within_trans(child.dom@, cdom, play_doms(sd, mv));
                assert forall|p: Seq<Option<Sq>>| !(#[trigger] si(p) && member(child.dom@, play_spec(p, mv))) by {
                    if si(p) && member(child.dom@, play_spec(p, mv)) {
                        let j = choose|j: int| 0 <= j < c && #[trigger] member(pd[j], play_spec(p, mv));
                        assert(member(pd[c as int], play_spec(p, mv)));
                    }
                }
                assert forall|p: Seq<Option<Sq>>| #[trigger] si1(p) == (si(p) || (member(sd, p) && member(
                    child.dom@,
                    play_spec(p, mv),
                ))) by {
                    if si1(p) && !si(p) {
                        let j = choose|j: int| 0 <= j < c + 1 && #[trigger] member(pd[j], play_spec(p, mv));
                        assert(j == c);
                    }
                    if member(sd, p) && member(child.dom@, play_spec(p, mv)) {
                        assert(member(pd[c as int], play_spec(p, mv)));
                    }
                }
            }
            match Region::pulled(child, mv) {
                None => {
                    proof {
                        assert forall|p: Seq<Option<Sq>>| #[trigger] si(p) == si1(p) by {
                            if member(sd, p) && member(child.dom@, play_spec(p, mv)) {
                                lemma_pullback_covers(sd, child.dom@, mv, p);
                            }
                        }
                        lemma_split3_equiv(parts_doms(settled@), region_doms(open@), Seq::empty(), si, si1);
                    }
                },
                Some(back) => {
                    let ghost x = back.dom@;
                    proof {
                        lemma_pullback_within(sd, child.dom@, mv);
                        lemma_within_trans(x, pullback_doms(child.dom@, mv), sd);
                        lemma_within_fine(setup, x, sd);
                        assert forall|p: Seq<Option<Sq>>| #[trigger] members(x)(p) == (member(sd, p) && member(
                            child.dom@,
                            play_spec(p, mv),
                        )) by {
                            if member(x, p) {
                                lemma_pullback_member(sd, child.dom@, mv, p);
                            }
                            if member(sd, p) && member(child.dom@, play_spec(p, mv)) {
                                lemma_pullback_covers(sd, child.dom@, mv, p);
                            }
                        }
                        assert forall|p: Seq<Option<Sq>>| !(#[trigger] si(p) && member(x, p)) by {
                            if si(p) && member(x, p) {
                                assert(members(x)(p));
                            }
                        }
                        assert forall|p: Seq<Option<Sq>>| #[trigger] union_set(si, members(x))(p) == si1(p) by {}
                        crate::board::lemma_flip_involution(sub.stm);
                    }
                    if ok == own {
                        settled.push((back, own));
                        proof {
                            lemma_split3_push_a(parts_doms(settled_before), region_doms(open@), Seq::empty(), x, si);
                            lemma_split3_equiv(
                                parts_doms(settled_before).push(x),
                                region_doms(open@),
                                Seq::empty(),
                                union_set(si, members(x)),
                                si1,
                            );
                            assert(parts_doms(settled@) =~= parts_doms(settled_before).push(x));
                        }
                    } else {
                        open.push(back);
                        proof {
                            lemma_split3_push_b(parts_doms(settled@), region_doms(open_before), Seq::empty(), x, si);
                            lemma_split3_equiv(
                                parts_doms(settled@),
                                region_doms(open_before).push(x),
                                Seq::empty(),
                                union_set(si, members(x)),
                                si1,
                            );
                            assert(region_doms(open@) =~= region_doms(open_before).push(x));
                        }
                    }
                },
            }
            c += 1;
        }
        proof {
            let pd = parts_doms(parts@);
            let sn = reach_set(sd, pd, mv, parts@.len() as int);
            assert forall|p: Seq<Option<Sq>>| #[trigger] sn(p) == members(sd)(p) by {
                if member(sd, p) {
                    lemma_play_member(sd, mv, p);
                    let pp = play_spec(p, mv);
                    assert(member(cdom, pp));
                    assert(in_some(pd, pp));
                    let j = choose|j: int| 0 <= j < pd.len() && #[trigger] member(pd[j], pp);
                }
            }
            lemma_split3_equiv(parts_doms(settled@), region_doms(open@), Seq::empty(), sn, members(sd));
            lemma_splits_of_split3(parts_doms(settled@), region_doms(open@), Seq::empty(), members(sd));
        }
        (settled, open)
    }

    /// Try each move on the parts still open: a part whose successor the
    /// certificate classifies as `own` is settled with that answer; the
    /// others stay open for the next move; what is left open after the last
    /// move gets the opposite answer.
    fn settle_moves(&mut self, r: &Region, moves: &Vec<Move>, own: bool) -> (out: Parts)
        requires
            old(self).wf(),
            fine(old(self).setup, r.dom@),
            forall|k: int| 0 <= k < moves.len() ==> decided_move(r.dom@, #[trigger] moves@[k]),
            forall|k: int| 0 <= k < moves.len() ==> (#[trigger] moves@[k]).to < old(self).setup.area_spec() && moves@[k].from < old(self).setup.area_spec(),
        ensures
            final(self).wf(),
            final(self).setup == old(self).setup,
            final(self).cert == old(self).cert,
            final(self).roles == old(self).roles,
            parts_within(old(self).setup, *r, out@),
            splits(parts_doms(out@), members(r.dom@)),
    {
        let ghost setup = self.setup;
        let ghost rd = r.dom@;
        let mut out: Parts = Vec::new();
        let mut remaining: Vec<Region> = Vec::new();
        remaining.push(Region { dom: r.dom.clone(), stm: r.stm });
        proof {
            assert(remaining@[0].dom@ =~= r.dom@);
            crate::narrow::lemma_within_refl(r.dom@);
            assert(parts_doms(out@) + region_doms(remaining@) =~= seq![rd]);
            crate::narrow::lemma_splits_single(rd);
        }
        let mut m: usize = 0;
        while m < moves.len() && remaining.len() > 0
            invariant
                self.wf(),
                setup == self.setup,
                self.setup == old(self).setup,
                self.cert == old(self).cert,
                self.roles == old(self).roles,
                rd == r.dom@,
                fine(setup, rd),
                forall|k: int| 0 <= k < moves.len() ==> decided_move(rd, #[trigger] moves@[k]),
                forall|k: int| 0 <= k < moves.len() ==> (#[trigger] moves@[k]).to < setup.area_spec() && moves@[k].from < setup.area_spec(),
                0 <= m <= moves.len(),
                parts_within(setup, *r, out@),
                forall|i: int| 0 <= i < remaining.len() ==> fine(setup, (#[trigger] remaining@[i]).dom@) && doms_within(remaining@[i].dom@, rd) && remaining@[i].stm == r.stm,
                splits(parts_doms(out@) + region_doms(remaining@), members(rd)),
            decreases moves.len() - m,
        {
            let mv = moves[m];
            let mut next: Vec<Region> = Vec::new();
            proof {
                let e = Seq::<Seq<Dom>>::empty();
                lemma_disjoint_parts(parts_doms(out@), region_doms(remaining@));
                assert(region_doms(next@) =~= e);
                assert(remaining@.subrange(0, remaining.len() as int) =~= remaining@);
                assert forall|p: Seq<Option<Sq>>| !(#[trigger] in_some(e, p)) by {}
                assert forall|p: Seq<Option<Sq>>| #[trigger] members(rd)(p) <==> in_some(parts_doms(out@), p) || in_some(e, p)
                    || in_some(region_doms(remaining@), p) by {
                    assert(in_some(parts_doms(out@) + region_doms(remaining@), p) == (in_some(parts_doms(out@), p) || in_some(region_doms(remaining@), p)));
                }
                assert(disjoint(e));
            }
            let mut j: usize = 0;
            while j < remaining.len()
                invariant
                    self.wf(),
                    setup == self.setup,
                    self.setup == old(self).setup,
                    self.cert == old(self).cert,
                    self.roles == old(self).roles,
                    rd == r.dom@,
                    fine(setup, rd),
                    decided_move(rd, mv),
                    mv.to < setup.area_spec(),
                    mv.from < setup.area_spec(),
                    0 <= j <= remaining.len(),
                    parts_within(setup, *r, out@),
                    forall|i: int| 0 <= i < remaining.len() ==> fine(setup, (#[trigger] remaining@[i]).dom@) && doms_within(remaining@[i].dom@, rd) && remaining@[i].stm == r.stm,
                    forall|i: int| 0 <= i < next.len() ==> fine(setup, (#[trigger] next@[i]).dom@) && doms_within(next@[i].dom@, rd) && next@[i].stm == r.stm,
                    split3(
                        parts_doms(out@),
                        region_doms(next@),
                        region_doms(remaining@.subrange(j as int, remaining.len() as int)),
                        members(rd),
                    ),
                decreases remaining.len() - j,
            {
                let sub = &remaining[j];
                proof {
                    lemma_decided_within(rd, sub.dom@, mv);
                }
                let ghost out_before = out@;
                let ghost next_before = next@;
                let ghost cd = region_doms(remaining@.subrange(j as int, remaining.len() as int));
                let (mut settled, mut open) = self.try_move(sub, mv, own);
                proof {
                    assert(cd[0] == sub.dom@);
                    lemma_split3_take_first(parts_doms(out_before), region_doms(next_before), cd, parts_doms(settled@), region_doms(open@), members(rd));
                    assert(cd.drop_first() =~= region_doms(remaining@.subrange(j + 1, remaining.len() as int)));
                }
                let ghost sv = settled@;
                let ghost ov = open@;
                out.append(&mut settled);
                next.append(&mut open);
                proof {
                    assert(parts_doms(out@) =~= parts_doms(out_before) + parts_doms(sv));
                    assert(region_doms(next@) =~= region_doms(next_before) + region_doms(ov));
                    assert forall|i: int| 0 <= i < out.len() implies fine(setup, (#[trigger] out@[i]).0.dom@) && doms_within(out@[i].0.dom@, rd) && out@[i].0.stm == r.stm by {
                        if i < out_before.len() {
                            assert(out@[i] == out_before[i]);
                        } else {
                            assert(out@[i] == sv[i - out_before.len()]);
                            lemma_within_trans(sv[i - out_before.len()].0.dom@, sub.dom@, rd);
                        }
                    }
                    assert forall|i: int| 0 <= i < next.len() implies fine(setup, (#[trigger] next@[i]).dom@) && doms_within(next@[i].dom@, rd) && next@[i].stm == r.stm by {
                        if i < next_before.len() {
                            assert(next@[i] == next_before[i]);
                        } else {
                            assert(next@[i] == ov[i - next_before.len()]);
                            lemma_within_trans(ov[i - next_before.len()].dom@, sub.dom@, rd);
                        }
                    }
                }
                j += 1;
            }
            proof {
                assert(region_doms(remaining@.subrange(remaining.len() as int, remaining.len() as int)) =~= Seq::<Seq<Dom>>::empty());
                lemma_splits_of_split3(parts_doms(out@), region_doms(next@), Seq::empty(), members(rd));
            }
            remaining = next;
            m += 1;
        }
        let ghost out0 = out@;
        let mut k: usize = 0;
        while k < remaining.len()
            invariant
                0 <= k <= remaining.len(),
                rd == r.dom@,
                parts_within(setup, *r, out@),
                forall|i: int| 0 <= i < remaining.len() ==> fine(setup, (#[trigger] remaining@[i]).dom@) && doms_within(remaining@[i].dom@, rd) && remaining@[i].stm == r.stm,
                splits(parts_doms(out0) + region_doms(remaining@), members(rd)),
                parts_doms(out@) == parts_doms(out0) + region_doms(remaining@.subrange(0, k as int)),
            decreases remaining.len() - k,
        {
            let s = Region { dom: remaining[k].dom.clone(), stm: remaining[k].stm };
            let ghost before = out@;
            proof {
                assert(s.dom@ =~= remaining@[k as int].dom@);
            }
            out.push((s, !own));
            proof {
                assert(parts_doms(out@) =~= parts_doms(before).push(s.dom@));
                assert(region_doms(remaining@.subrange(0, k + 1)) =~= region_doms(remaining@.subrange(0, k as int)).push(s.dom@));
            }
            k += 1;
        }
        proof {
            assert(remaining@.subrange(0, remaining.len() as int) =~= remaining@);
        }
        out
    }

    /// Protected side to move: is there a legal move into the safe region?
    /// A stalemate counts as satisfied; a checkmate does not.
    pub fn exists_safe(&mut self, r: Region) -> (out: Parts)
        requires
            old(self).wf(),
            fine(old(self).setup, r.dom@),
        ensures
            final(self).wf(),
            final(self).setup == old(self).setup,
            final(self).cert == old(self).cert,
            final(self).roles == old(self).roles,
            parts_within(old(self).setup, r, out@),
            splits(parts_doms(out@), members(r.dom@)),
        decreases region_facts(r.dom@),
    {
        self.obligation(r, true)
    }

    /// Opponent to move: does every legal move stay in the safe region?
    pub fn all_safe(&mut self, r: Region) -> (out: Parts)
        requires
            old(self).wf(),
            fine(old(self).setup, r.dom@),
        ensures
            final(self).wf(),
            final(self).setup == old(self).setup,
            final(self).cert == old(self).cert,
            final(self).roles == old(self).roles,
            parts_within(old(self).setup, r, out@),
            splits(parts_doms(out@), members(r.dom@)),
        decreases region_facts(r.dom@),
    {
        self.obligation(r, false)
    }

    /// The obligation of the side to move: some move into the region
    /// (`own`), or every move into it.
    fn obligation(&mut self, r: Region, own: bool) -> (out: Parts)
        requires
            old(self).wf(),
            fine(old(self).setup, r.dom@),
        ensures
            final(self).wf(),
            final(self).setup == old(self).setup,
            final(self).cert == old(self).cert,
            final(self).roles == old(self).roles,
            parts_within(old(self).setup, r, out@),
            splits(parts_doms(out@), members(r.dom@)),
        decreases region_facts(r.dom@),
    {
        let ghost setup = self.setup;
        let mut log = RecLog { pattern: Pattern::full(self.setup), queries: 0 };
        proof {
            r.lemma_rec_fits(self.setup);
            lemma_rec_errs(r.dom@);
            lemma_legal_moves_errs(setup, rec_answers(r.dom@), open_in(r.dom@), r.stm);
            lemma_in_check_errs(setup, rec_answers(r.dom@), open_in(r.dom@), r.stm);
            lemma_legal_moves_decided(setup, r.dom@, r.stm);
            crate::board::lemma_legal_moves_ok(setup, rec_answers(r.dom@), r.stm);
        }
        let res = {
            let rec = Rec { r: &r };
            legal_moves(self.setup, &rec, &mut log, r.stm)
        };
        self.queries = self.queries.saturating_add(log.queries);
        let blocked = match res {
            Ok(moves) => {
                if moves.len() > 0 {
                    return self.settle_moves(&r, &moves, own);
                }
                if !own {
                    // no moves for the opponent: every move stays, vacuously
                    let ghost rr = r;
                    let mut v: Parts = Vec::new();
                    v.push((r, true));
                    proof {
                        crate::narrow::lemma_within_refl(rr.dom@);
                        assert(parts_doms(v@) =~= seq![rr.dom@]);
                        crate::narrow::lemma_splits_single(rr.dom@);
                    }
                    return v;
                }
                let mut log2 = RecLog { pattern: Pattern::full(self.setup), queries: 0 };
                let chk = {
                    let rec = Rec { r: &r };
                    in_check(self.setup, &rec, &mut log2, r.stm)
                };
                self.queries = self.queries.saturating_add(log2.queries);
                match chk {
                    Ok(mated) => {
                        let ghost rr = r;
                        let mut v: Parts = Vec::new();
                        // no moves: a stalemate satisfies the obligation, a checkmate does not
                        v.push((r, !mated));
                        proof {
                            crate::narrow::lemma_within_refl(rr.dom@);
                            assert(parts_doms(v@) =~= seq![rr.dom@]);
                            crate::narrow::lemma_splits_single(rr.dom@);
                        }
                        return v;
                    },
                    Err(q) => q,
                }
            },
            Err(q) => q,
        };
        proof {
            assert(open_query(r.dom@, blocked));
            if let Blocked::At(t) = blocked {
                let k = choose|k: int| 0 <= k < r.dom.len() && crate::narrow::bit(r.dom@[k].sq, t as int) && #[trigger] crate::narrow::unpinned(r.dom@[k]);
            }
        }
        self.forks = self.forks.saturating_add(1);
        let children = r.fork(blocked);
        proof {
            lemma_fork_splits(&r, children@);
        }
        let mut out: Parts = Vec::new();
        let mut i: usize = 0;
        while i < children.len()
            invariant
                self.wf(),
                setup == self.setup,
                self.cert == old(self).cert,
                self.roles == old(self).roles,
                self.setup == old(self).setup,
                fine(setup, r.dom@),
                splits(region_doms(children@), members(r.dom@)),
                forall|j: int|
                    0 <= j < children.len() ==> (#[trigger] children@[j]).stm == r.stm && doms_within(children@[j].dom@, r.dom@)
                        && tidy(children@[j].dom@) && region_facts(children@[j].dom@) < region_facts(r.dom@),
                0 <= i <= children.len(),
                parts_within(setup, r, out@),
                disjoint(parts_doms(out@)),
                forall|p: Seq<Option<Sq>>| #[trigger] in_some(parts_doms(out@), p) <==> in_some(region_doms(children@.subrange(0, i as int)), p),
            decreases children.len() - i,
        {
            let c = Region { dom: children[i].dom.clone(), stm: children[i].stm };
            proof {
                assert(c.dom@ =~= children@[i as int].dom@);
                lemma_within_fine(setup, c.dom@, r.dom@);
            }
            let mut sub = self.obligation(c, own);
            let ghost old_out = out@;
            let ghost sub_v = sub@;
            proof {
                assert forall|p: Seq<Option<Sq>>| !(#[trigger] in_some(parts_doms(old_out), p) && in_some(parts_doms(sub_v), p)) by {
                    if in_some(parts_doms(old_out), p) && in_some(parts_doms(sub_v), p) {
                        let pre = region_doms(children@.subrange(0, i as int));
                        let a = choose|a: int| 0 <= a < pre.len() && #[trigger] member(pre[a], p);
                        assert(members(c.dom@)(p));
                        assert(member(region_doms(children@)[a], p));
                        assert(member(region_doms(children@)[i as int], p));
                    }
                }
                lemma_disjoint_concat(parts_doms(old_out), parts_doms(sub_v));
            }
            out.append(&mut sub);
            proof {
                assert(parts_doms(out@) =~= parts_doms(old_out) + parts_doms(sub_v));
                assert forall|p: Seq<Option<Sq>>| #[trigger] in_some(parts_doms(out@), p) <==> in_some(
                    region_doms(children@.subrange(0, i + 1)),
                    p,
                ) by {
                    let pre = region_doms(children@.subrange(0, i as int));
                    let nxt = region_doms(children@.subrange(0, i + 1));
                    assert(nxt =~= pre.push(children@[i as int].dom@));
                    if in_some(nxt, p) {
                        let a = choose|a: int| 0 <= a < nxt.len() && #[trigger] member(nxt[a], p);
                        if a < i {
                            assert(member(pre[a], p));
                        } else {
                            assert(members(c.dom@)(p));
                        }
                    }
                    if in_some(pre, p) {
                        let a = choose|a: int| 0 <= a < pre.len() && #[trigger] member(pre[a], p);
                        assert(member(nxt[a], p));
                    }
                    if in_some(parts_doms(sub_v), p) {
                        assert(members(c.dom@)(p));
                        assert(member(nxt[i as int], p));
                    }
                }
                assert forall|j: int| 0 <= j < out.len() implies fine(setup, (#[trigger] out@[j]).0.dom@) && doms_within(out@[j].0.dom@, r.dom@) && out@[j].0.stm == r.stm by {
                    if j < old_out.len() {
                        assert(out@[j] == old_out[j]);
                    } else {
                        let k = j - old_out.len();
                        assert(out@[j] == sub_v[k]);
                        lemma_within_trans(sub_v[k].0.dom@, c.dom@, r.dom@);
                    }
                }
            }
            i += 1;
        }
        proof {
            assert(children@.subrange(0, children.len() as int) =~= children@);
            assert forall|p: Seq<Option<Sq>>| #[trigger] in_some(parts_doms(out@), p) <==> members(r.dom@)(p) by {
                assert(in_some(region_doms(children@), p) <==> members(r.dom@)(p));
            }
        }
        out
    }
}

#[derive(Default, Debug, Clone)]
pub struct SymReport {
    pub protected: Option<Color>,
    pub legal_positions: usize,
    /// Membership partition of the legal positions.
    pub member_leaves: usize,
    pub safe_leaves: usize,
    pub safe_positions: usize,
    /// Obligation partition of the safe positions.
    pub own_leaves: usize,
    pub own_positions: usize,
    pub opp_leaves: usize,
    pub opp_positions: usize,
    /// Positions in leaves whose obligation failed.
    pub violating_positions: usize,
    pub queries: u64,
    pub forks: u64,
    /// Cross-check against the concrete verifier: positions covered by
    /// several or no membership leaves, or classified differently.
    pub cover_errors: usize,
    pub mismatches: usize,
    /// Legal positions whose membership walk consulted each feature
    /// (traced concretely on one representative per membership leaf).
    pub feature_positions: Vec<usize>,
    /// Legal positions whose membership walk needed move generation
    /// (any of the features from `in_check` on).
    pub movegen_positions: usize,
    /// Membership leaf sizes: [1, 2..=3, 4..=15, 16+] positions.
    pub leaf_size_hist: [usize; 4],
}

/// A position of a region on the board is a position of the setup.
proof fn lemma_member_wf(setup: &Setup, doms: Seq<Dom>, p: Seq<Option<Sq>>)
    requires
        fine(setup, doms),
        member(doms, p),
    ensures
        p.len() == setup.slots.len(),
        forall|k: int| 0 <= k < p.len() ==> ((#[trigger] p[k]) matches Some(q) ==> q < setup.area_spec()),
{
    assert forall|k: int| 0 <= k < p.len() implies ((#[trigger] p[k]) matches Some(q) ==> q < setup.area_spec()) by {
        assert(crate::narrow::placed(doms[k], p[k]));
        if p[k] is Some {
            assert(bit(doms[k].sq, p[k]->Some_0 as int));
        }
    }
}

/// The size bucket of a leaf with `k` positions.
fn bucket(k: usize) -> (b: usize)
    ensures
        b < 4,
        b == if k <= 1 {
            0usize
        } else if k <= 3 {
            1usize
        } else if k <= 15 {
            2usize
        } else {
            3usize
        },
{
    if k <= 1 {
        0
    } else if k <= 3 {
        1
    } else if k <= 15 {
        2
    } else {
        3
    }
}

/// Check the certificate symbolically for one protected colour, and
/// cross-check the membership partition against the concrete evaluation on
/// every legal position of the table.
pub fn verify(table: &Table, cert: &Cert, protected: Color) -> (rep: SymReport)
    requires
        table.setup.wf(),
        one_rook(table.setup.slots@, Color::White),
        one_rook(table.setup.slots@, Color::Black),
        table.vals.len() == size_spec(&table.setup),
        size_spec(&table.setup) <= usize::MAX,
        cert.wf(),
    ensures
        rep.protected == Some(protected),
        rep.legal_positions == count_upto(table.vals.len() as int, legal_pred(table.vals@)),
        rep.feature_positions.len() == NFEAT,
{
    let setup = &table.setup;
    let mut sym = Sym::new(setup, cert, protected);
    let mut feature_positions: Vec<usize> = Vec::new();
    let mut z: usize = 0;
    while z < NFEAT
        invariant
            0 <= z <= NFEAT,
            feature_positions.len() == z,
        decreases NFEAT - z,
    {
        feature_positions.push(0);
        z += 1;
    }
    let mut rep = SymReport {
        protected: Some(protected),
        legal_positions: 0,
        member_leaves: 0,
        safe_leaves: 0,
        safe_positions: 0,
        own_leaves: 0,
        own_positions: 0,
        opp_leaves: 0,
        opp_positions: 0,
        violating_positions: 0,
        queries: 0,
        forks: 0,
        cover_errors: 0,
        mismatches: 0,
        feature_positions,
        movegen_positions: 0,
        leaf_size_hist: [0; 4],
    };
    let n = table.vals.len();
    let mut seen: Vec<u8> = Vec::new();
    let mut z2: usize = 0;
    while z2 < n
        invariant
            0 <= z2 <= n,
            seen.len() == z2,
        decreases n - z2,
    {
        seen.push(0);
        z2 += 1;
    }
    let mut side: usize = 0;
    while side < 2
        invariant
            sym.wf(),
            sym.setup == setup,
            sym.cert == cert,
            sym.roles == roles_spec(setup, protected),
            setup == &table.setup,
            setup.wf(),
            cert.wf(),
            table.vals.len() == size_spec(setup),
            size_spec(setup) <= usize::MAX,
            n == table.vals.len(),
            seen.len() == n,
            rep.protected == Some(protected),
            rep.legal_positions == 0,
            rep.feature_positions.len() == NFEAT,
            0 <= side <= 2,
        decreases 2 - side,
    {
        let stm = if side == 0 {
            Color::White
        } else {
            Color::Black
        };
        let root = Region::root(setup, stm);
        proof {
            crate::absmove::lemma_area_pub(setup);
        }
        let legal = sym.legal(root);
        let mut li: usize = 0;
        while li < legal.len()
            invariant
                sym.wf(),
                sym.setup == setup,
                sym.cert == cert,
                sym.roles == roles_spec(setup, protected),
                setup == &table.setup,
                setup.wf(),
                cert.wf(),
                table.vals.len() == size_spec(setup),
                size_spec(setup) <= usize::MAX,
                n == table.vals.len(),
                seen.len() == n,
                rep.protected == Some(protected),
                rep.legal_positions == 0,
                rep.feature_positions.len() == NFEAT,
                forall|i: int| 0 <= i < legal.len() ==> fine(setup, (#[trigger] legal@[i]).dom@),
                0 <= li <= legal.len(),
            decreases legal.len() - li,
        {
            let r = Region { dom: legal[li].dom.clone(), stm: legal[li].stm };
            proof {
                assert(r.dom@ =~= legal@[li as int].dom@);
            }
            let leaves = sym.classify(r);
            let mut k: usize = 0;
            while k < leaves.len()
                invariant
                    sym.wf(),
                    sym.setup == setup,
                    sym.cert == cert,
                    sym.roles == roles_spec(setup, protected),
                    setup == &table.setup,
                    setup.wf(),
                    cert.wf(),
                    table.vals.len() == size_spec(setup),
                    size_spec(setup) <= usize::MAX,
                    n == table.vals.len(),
                    seen.len() == n,
                    rep.protected == Some(protected),
                    rep.legal_positions == 0,
                    rep.feature_positions.len() == NFEAT,
                    forall|i: int| 0 <= i < leaves.len() ==> fine(setup, (#[trigger] leaves@[i]).0.dom@),
                    0 <= k <= leaves.len(),
                decreases leaves.len() - k,
            {
                let leaf = Region { dom: leaves[k].0.dom.clone(), stm: leaves[k].0.stm };
                let member = leaves[k].1;
                proof {
                    assert(leaf.dom@ =~= leaves@[k as int].0.dom@);
                }
                rep.member_leaves = rep.member_leaves.saturating_add(1);
                let ps = leaf.positions();
                proof {
                    assert forall|t: int| 0 <= t < ps.len() implies (#[trigger] ps@[t]).wf(setup) by {
                        lemma_member_wf(setup, leaf.dom@, ps@[t].sqs@);
                    }
                }
                let b = bucket(ps.len());
                rep.leaf_size_hist[b] = rep.leaf_size_hist[b].saturating_add(1);
                if ps.len() > 0 {
                    let used = consulted(setup, cert, &ps[0], &sym.roles);
                    let mut f: usize = 0;
                    let mut movegen = false;
                    while f < NFEAT
                        invariant
                            0 <= f <= NFEAT,
                            rep.feature_positions.len() == NFEAT,
                            rep.protected == Some(protected),
                            rep.legal_positions == 0,
                        decreases NFEAT - f,
                    {
                        if used[f] {
                            let cur = rep.feature_positions[f];
                            rep.feature_positions.set(f, cur.saturating_add(ps.len()));
                            if f >= 29 {
                                movegen = true;
                            }
                        }
                        f += 1;
                    }
                    if movegen {
                        rep.movegen_positions = rep.movegen_positions.saturating_add(ps.len());
                    }
                }
                let mut t: usize = 0;
                while t < ps.len()
                    invariant
                        setup == &table.setup,
                        setup.wf(),
                        cert.wf(),
                        sym.roles.wf(setup),
                        table.vals.len() == size_spec(setup),
                        size_spec(setup) <= usize::MAX,
                        n == table.vals.len(),
                        seen.len() == n,
                        forall|u: int| 0 <= u < ps.len() ==> (#[trigger] ps@[u]).wf(setup),
                        0 <= t <= ps.len(),
                        rep.feature_positions.len() == NFEAT,
                        rep.protected == Some(protected),
                        rep.legal_positions == 0,
                    decreases ps.len() - t,
                {
                    let i = Table::index(setup, &ps[t]);
                    let cur = seen[i];
                    seen.set(i, cur.saturating_add(1));
                    if table.vals[i] == Val::Illegal || safe(setup, cert, &ps[t], &sym.roles) != member {
                        rep.mismatches = rep.mismatches.saturating_add(1);
                    }
                    t += 1;
                }
                if member {
                    rep.safe_leaves = rep.safe_leaves.saturating_add(1);
                    rep.safe_positions = rep.safe_positions.saturating_add(ps.len());
                    let own = stm == protected;
                    let parts = if own {
                        sym.exists_safe(leaf)
                    } else {
                        sym.all_safe(leaf)
                    };
                    let mut covered: usize = 0;
                    let mut pi: usize = 0;
                    while pi < parts.len()
                        invariant
                            rep.protected == Some(protected),
                            rep.legal_positions == 0,
                            rep.feature_positions.len() == NFEAT,
                            0 <= pi <= parts.len(),
                        decreases parts.len() - pi,
                    {
                        if own {
                            rep.own_leaves = rep.own_leaves.saturating_add(1);
                        } else {
                            rep.opp_leaves = rep.opp_leaves.saturating_add(1);
                        }
                        let pps = if parts[pi].0.dom.len() <= 255 {
                            parts[pi].0.positions()
                        } else {
                            Vec::new()
                        };
                        covered = covered.saturating_add(pps.len());
                        if !parts[pi].1 {
                            rep.violating_positions = rep.violating_positions.saturating_add(pps.len());
                        }
                        pi += 1;
                    }
                    if own {
                        rep.own_positions = rep.own_positions.saturating_add(covered);
                    } else {
                        rep.opp_positions = rep.opp_positions.saturating_add(covered);
                    }
                    if covered != ps.len() {
                        rep.cover_errors = rep.cover_errors.saturating_add(1);
                    }
                }
                k += 1;
            }
            li += 1;
        }
        side += 1;
    }
    let mut legal_positions: usize = 0;
    let mut i: usize = 0;
    while i < n
        invariant
            n == table.vals.len(),
            seen.len() == n,
            0 <= i <= n,
            legal_positions == count_upto(i as int, legal_pred(table.vals@)),
            legal_positions <= i,
            rep.feature_positions.len() == NFEAT,
            rep.protected == Some(protected),
        decreases n - i,
    {
        if table.vals[i] != Val::Illegal {
            legal_positions += 1;
            if seen[i] != 1 {
                rep.cover_errors = rep.cover_errors.saturating_add(1);
            }
        }
        i += 1;
    }
    rep.legal_positions = legal_positions;
    rep.queries = sym.queries;
    rep.forks = sym.forks;
    rep
}

} // verus!
