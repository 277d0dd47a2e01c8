//! Synthesize a nonloss certificate under a chosen feature vocabulary:
//!
//! 1. every legal position gets a feature vector over the vocabulary; the
//!    positions sharing a vector form a *cell*;
//! 2. a cell is removed if any member violates a nonloss obligation for the
//!    protected side (White; Black is handled by relabeling), to a fixpoint;
//! 3. the surviving cells are described by an exact decision tree over the
//!    vocabulary, shared into a DAG in the certificate format.
//!
//! The vocabulary is the cost model: restricting it to features a region can
//! decide by splitting a domain (`geo_vocab`) rather than generating moves is
//! what would let the symbolic check pay off.

use vstd::prelude::*;
use crate::board::{Color, Position, Setup, Sq, legal_moves, in_check, lemma_position_fits,
    lemma_legal_moves_never_blocks, lemma_in_check_never_blocks, lemma_legal_moves_ok, position_answers, moves_ok};
use crate::cert::{Roles, feature, feature_name, feature_name_spec, start, one_rook, NFEAT, feature_spec, lemma_features_ok, eval_res};
use crate::cert::{safe_spec, obligation_spec, after_safe, feature_fn, roles_spec, start_sqs};
use crate::board::Res;
use crate::board::Blocked;
use crate::certs::{Cert, node_ok};
use crate::retro::{Table, Val, size_spec, count_upto, position_sqs, position_stm, index_spec, lemma_position_wf, lemma_index_of_position, lemma_played_in_range};
use crate::board::{legal_moves_spec, play_spec, in_check_spec, flip_spec};
use crate::text::{push_str, push_char, push_decimal_u64, decimal};
use vstd::hash_map::HashMapWithView;

verus! {

broadcast use vstd::std_specs::hash::group_hash_axioms;

/// Geometric features: side to move, missing rooks, edge/corner tests, pair
/// distances, alignments and clear rays. No move generation.
pub fn geo_vocab() -> (v: Vec<usize>)
    ensures
        v@ == Seq::new(29, |i: int| i as usize),
{
    upto(29)
}

/// Everything, including the one-ply tactical features.
pub fn full_vocab() -> (v: Vec<usize>)
    ensures
        v@ == Seq::new(NFEAT as nat, |i: int| i as usize),
{
    upto(NFEAT)
}

fn upto(n: usize) -> (v: Vec<usize>)
    ensures
        v@ == Seq::new(n as nat, |i: int| i as usize),
{
    let mut v: Vec<usize> = Vec::new();
    let mut i: usize = 0;
    while i < n
        invariant
            0 <= i <= n,
            v@ == Seq::new(i as nat, |k: int| k as usize),
        decreases n - i,
    {
        v.push(i);
        i += 1;
        proof {
            assert(v@ =~= Seq::new(i as nat, |k: int| k as usize));
        }
    }
    v
}

/// Anchor-relative: only the protected king's edge/corner features are
/// absolute; everything else is a relation between two pieces. This is the
/// vocabulary an anchor-relative region can decide by splitting offset
/// domains, with the anchor's own domain split only by its edge distance.
pub fn rel_vocab() -> (v: Vec<usize>)
    ensures
        v@ == seq![0usize, 1, 2, 3, 4] + Seq::new(18, |i: int| (i + 11) as usize),
{
    let mut v: Vec<usize> = Vec::new();
    v.push(0);
    v.push(1);
    v.push(2);
    v.push(3);
    v.push(4);
    let ghost head = v@;
    let mut f: usize = 11;
    while f < 29
        invariant
            11 <= f <= 29,
            head == seq![0usize, 1, 2, 3, 4],
            v@ == head + Seq::new((f - 11) as nat, |i: int| (i + 11) as usize),
        decreases 29 - f,
    {
        v.push(f);
        f += 1;
        proof {
            assert(v@ =~= head + Seq::new((f - 11) as nat, |i: int| (i + 11) as usize));
        }
    }
    v
}

pub struct Synthesis {
    pub vocab: Vec<usize>,
    pub cells: usize,
    pub rounds: usize,
    pub removed_by_round: Vec<usize>,
    pub safe_cells: usize,
    pub safe_states: usize,
    /// Start position permitted from White's and from Black's perspective.
    pub roots_ok: [bool; 2],
    pub tree_nodes: usize,
    pub cert: Cert,
}

// ---------------------------------------------------------------------
// The JSON form of a certificate
// ---------------------------------------------------------------------

/// A signed integer in decimal.
pub open spec fn int_text(x: int) -> Seq<char> {
    if x < 0 {
        seq!['-'] + decimal((-x) as nat)
    } else {
        decimal(x as nat)
    }
}

/// One node as a JSON array.
pub open spec fn node_text(nd: [i32; 4]) -> Seq<char> {
    seq!['['] + int_text(nd@[0] as int) + seq![','] + int_text(nd@[1] as int) + seq![','] + int_text(nd@[2] as int) + seq![',']
        + int_text(nd@[3] as int) + seq![']']
}

/// The first `k` nodes, comma-separated.
pub open spec fn nodes_text(nodes: Seq<[i32; 4]>, k: int) -> Seq<char>
    decreases k,
{
    if k <= 0 {
        Seq::empty()
    } else if k == 1 {
        node_text(nodes[0])
    } else {
        nodes_text(nodes, k - 1) + seq![','] + node_text(nodes[k - 1])
    }
}

/// The names of the first `k` vocabulary features, quoted and comma-separated.
pub open spec fn names_text(vocab: Seq<usize>, k: int) -> Seq<char>
    decreases k,
{
    if k <= 0 {
        Seq::empty()
    } else if k == 1 {
        seq!['"'] + feature_name_spec(vocab[0] as int) + seq!['"']
    } else {
        names_text(vocab, k - 1) + seq![','] + seq!['"'] + feature_name_spec(vocab[k - 1] as int) + seq!['"']
    }
}

/// The certificate's JSON text.
pub open spec fn json_spec(c: &Cert, vocab: Seq<usize>, head: Seq<char>, board: Seq<char>, root: Seq<char>, nodes: Seq<char>, tail: Seq<char>) -> Seq<char> {
    head + decimal(c.board as nat) + board + decimal(c.root as nat) + root + nodes_text(c.nodes@, c.nodes.len() as int) + nodes
        + names_text(vocab, vocab.len() as int) + tail
}

fn push_int(s: &mut String, x: i32)
    ensures
        final(s)@ == old(s)@ + int_text(x as int),
{
    if x < 0 {
        push_char(s, '-');
        let m: u64 = (-(x as i64)) as u64;
        push_decimal_u64(s, m);
        proof {
            assert(final(s)@ =~= old(s)@ + int_text(x as int));
        }
    } else {
        push_decimal_u64(s, x as u64);
    }
}

/// The certificate in the `mini-rook-safety-dag-v1` JSON format.
#[verifier::spinoff_prover]
#[verifier::rlimit(40)]
pub fn to_json(c: &Cert, vocab: &Vec<usize>) -> (s: String)
    requires
        forall|i: int| 0 <= i < vocab.len() ==> #[trigger] vocab@[i] < NFEAT,
    ensures
        s@ == json_spec(
            c,
            vocab@,
            "{\"format\":\"mini-rook-safety-dag-v1\",\"board\":"@,
            ",\"root\":"@,
            ",\"nodes\":["@,
            "],\"vocabulary\":["@,
            "]}"@,
        ),
{
    let mut s = String::new();
    push_str(&mut s, "{\"format\":\"mini-rook-safety-dag-v1\",\"board\":");
    push_decimal_u64(&mut s, c.board as u64);
    push_str(&mut s, ",\"root\":");
    push_decimal_u64(&mut s, c.root as u64);
    push_str(&mut s, ",\"nodes\":[");
    let ghost before_nodes = s@;
    let mut i: usize = 0;
    while i < c.nodes.len()
        invariant
            0 <= i <= c.nodes.len(),
            s@ == before_nodes + nodes_text(c.nodes@, i as int),
        decreases c.nodes.len() - i,
    {
        let ghost pre = s@;
        if i > 0 {
            push_char(&mut s, ',');
        }
        let nd = c.nodes[i];
        push_char(&mut s, '[');
        push_int(&mut s, nd[0]);
        push_char(&mut s, ',');
        push_int(&mut s, nd[1]);
        push_char(&mut s, ',');
        push_int(&mut s, nd[2]);
        push_char(&mut s, ',');
        push_int(&mut s, nd[3]);
        push_char(&mut s, ']');
        proof {
            if i == 0 {
                assert(s@ =~= before_nodes + nodes_text(c.nodes@, 1));
            } else {
                assert(s@ =~= before_nodes + nodes_text(c.nodes@, i as int + 1));
            }
        }
        i += 1;
    }
    push_str(&mut s, "],\"vocabulary\":[");
    let ghost before_names = s@;
    let mut k: usize = 0;
    while k < vocab.len()
        invariant
            0 <= k <= vocab.len(),
            forall|i: int| 0 <= i < vocab.len() ==> #[trigger] vocab@[i] < NFEAT,
            s@ == before_names + names_text(vocab@, k as int),
        decreases vocab.len() - k,
    {
        if k > 0 {
            push_char(&mut s, ',');
        }
        push_char(&mut s, '"');
        proof {
            assert(vocab@[k as int] < NFEAT);
        }
        push_str(&mut s, feature_name(vocab[k]));
        push_char(&mut s, '"');
        proof {
            if k == 0 {
                assert(s@ =~= before_names + names_text(vocab@, 1));
            } else {
                assert(s@ =~= before_names + names_text(vocab@, k as int + 1));
            }
        }
        k += 1;
    }
    push_str(&mut s, "]}");
    proof {
        assert(s@ =~= json_spec(
            c,
            vocab@,
            "{\"format\":\"mini-rook-safety-dag-v1\",\"board\":"@,
            ",\"root\":"@,
            ",\"nodes\":["@,
            "],\"vocabulary\":["@,
            "]}"@,
        ));
    }
    s
}

// ---------------------------------------------------------------------
// The decision tree over cells
// ---------------------------------------------------------------------

struct Node {
    feat: usize,
    thr: i32,
    left: Box<Tree>,
    right: Box<Tree>,
}

enum Tree {
    Leaf(bool),
    Split(Node),
}

/// Every split of the tree tests a feature below `nf`.
spec fn tree_ok(t: Tree, nf: int) -> bool
    decreases t,
{
    match t {
        Tree::Leaf(_) => true,
        Tree::Split(n) => n.feat < nf && tree_ok(*n.left, nf) && tree_ok(*n.right, nf),
    }
}

/// The tree's answer on a vector: left where the tested feature is at most
/// the threshold.
spec fn tree_eval(t: Tree, v: Seq<i32>) -> bool
    decreases t,
{
    match t {
        Tree::Leaf(b) => b,
        Tree::Split(n) => if v[n.feat as int] <= n.thr {
            tree_eval(*n.left, v)
        } else {
            tree_eval(*n.right, v)
        },
    }
}

/// The number of splits in the tree.
spec fn tree_size(t: Tree) -> nat
    decreases t,
{
    match t {
        Tree::Leaf(_) => 0,
        Tree::Split(n) => 1 + tree_size(*n.left) + tree_size(*n.right),
    }
}

/// The total weight of the listed rows labelled true.
pub open spec fn psum(weight: Seq<usize>, label: Seq<bool>, rows: Seq<usize>) -> int
    decreases rows.len(),
{
    if rows.len() == 0 {
        0
    } else {
        psum(weight, label, rows.drop_last()) + if label[rows.last() as int] {
            weight[rows.last() as int] as int
        } else {
            0
        }
    }
}

proof fn lemma_psum_step(weight: Seq<usize>, label: Seq<bool>, rows: Seq<usize>, i: int)
    requires
        0 <= i < rows.len(),
    ensures
        psum(weight, label, rows.take(i + 1)) == psum(weight, label, rows.take(i)) + if label[rows[i] as int] {
            weight[rows[i] as int] as int
        } else {
            0
        },
{
    assert(rows.take(i + 1).drop_last() =~= rows.take(i));
}

/// With positive weights, the labelled weight is zero exactly when no row
/// is labelled, and the total exactly when every row is.
proof fn lemma_psum_extremes(weight: Seq<usize>, label: Seq<bool>, rows: Seq<usize>)
    requires
        forall|k: int| 0 <= k < rows.len() ==> weight[#[trigger] rows[k] as int] > 0,
    ensures
        0 <= psum(weight, label, rows) <= wsum(weight, rows),
        psum(weight, label, rows) == 0 <==> forall|k: int| 0 <= k < rows.len() ==> !label[#[trigger] rows[k] as int],
        psum(weight, label, rows) == wsum(weight, rows) <==> forall|k: int| 0 <= k < rows.len() ==> label[#[trigger] rows[k] as int],
    decreases rows.len(),
{
    if rows.len() > 0 {
        let r = rows.drop_last();
        assert forall|k: int| 0 <= k < r.len() implies weight[#[trigger] r[k] as int] > 0 by {
            assert(r[k] == rows[k]);
        }
        lemma_psum_extremes(weight, label, r);
        let last = rows.len() - 1;
        assert(rows.last() == rows[last]);
        assert(weight[rows[last] as int] > 0);
        if forall|k: int| 0 <= k < rows.len() ==> !label[#[trigger] rows[k] as int] {
            assert forall|k: int| 0 <= k < r.len() implies !label[#[trigger] r[k] as int] by {
                assert(r[k] == rows[k]);
            }
        }
        if psum(weight, label, rows) == 0 {
            assert forall|k: int| 0 <= k < rows.len() implies !label[#[trigger] rows[k] as int] by {
                if k < last {
                    assert(r[k] == rows[k]);
                }
            }
        }
        if forall|k: int| 0 <= k < rows.len() ==> label[#[trigger] rows[k] as int] {
            assert forall|k: int| 0 <= k < r.len() implies label[#[trigger] r[k] as int] by {
                assert(r[k] == rows[k]);
            }
        }
        if psum(weight, label, rows) == wsum(weight, rows) {
            assert forall|k: int| 0 <= k < rows.len() implies label[#[trigger] rows[k] as int] by {
                if k < last {
                    assert(r[k] == rows[k]);
                }
            }
        }
    }
}

/// The total weight of the listed rows.
pub open spec fn wsum(weight: Seq<usize>, rows: Seq<usize>) -> int
    decreases rows.len(),
{
    if rows.len() == 0 {
        0
    } else {
        wsum(weight, rows.drop_last()) + weight[rows.last() as int]
    }
}

/// The largest table a certificate is synthesized for. The certificate
/// links its nodes by `i32` indices, and the tree has fewer than twice as
/// many nodes as there are cells, at most one per position: this keeps every
/// index below `2^31`. Split scores are exact fractions whose numerators
/// (below `2 W^3`) and denominators (at most `W^2`) fit in 128 bits; their
/// cross products are compared in 256.
pub const MAX_WEIGHT: usize = 0x3fff_0000;

/// Weighted Gini impurity of a split, as a fraction `(num, den)` scaled by
/// one half: `p(t - p)/t` on each side, zero for an empty side.
fn split_score(lp: u128, lt: u128, rp: u128, rt: u128) -> (r: (u128, u128))
    requires
        lp <= lt <= MAX_WEIGHT,
        rp <= rt <= MAX_WEIGHT,
    ensures
        r.1 > 0,
        r.0 <= 0x2_0000_0000_0000_0000_0000_0000_0000_0000,
        r.1 <= 0x1_0000_0000_0000_0000_0000,
        r.0 * (if rt == 0 { 1 } else { rt }) * (if lt == 0 { 1 } else { lt }) == r.0 * r.1,
        r.1 == (if lt == 0 { 1 } else { lt }) * (if rt == 0 { 1 } else { rt }),
        r.0 == lp * (lt - lp) * (if rt == 0 { 1 } else { rt }) + rp * (rt - rp) * (if lt == 0 { 1 } else { lt }),
{
    let dl: u128 = if lt == 0 {
        1
    } else {
        lt
    };
    let dr: u128 = if rt == 0 {
        1
    } else {
        rt
    };
    proof {
        assert(lp * (lt - lp) <= lt * lt) by (nonlinear_arith)
            requires
                lp <= lt,
        ;
        assert(rp * (rt - rp) <= rt * rt) by (nonlinear_arith)
            requires
                rp <= rt,
        ;
        assert(lt * lt <= 0x1_0000_0000_0000_0000_0000) by (nonlinear_arith)
            requires
                lt <= 0x100_0000_0000,
        ;
        assert(rt * rt <= 0x1_0000_0000_0000_0000_0000) by (nonlinear_arith)
            requires
                rt <= 0x100_0000_0000,
        ;
        assert(lp * (lt - lp) * dr <= 0x1_0000_0000_0000_0000_0000 * 0x100_0000_0000) by (nonlinear_arith)
            requires
                lp * (lt - lp) <= 0x1_0000_0000_0000_0000_0000,
                dr <= 0x100_0000_0000,
        ;
        assert(rp * (rt - rp) * dl <= 0x1_0000_0000_0000_0000_0000 * 0x100_0000_0000) by (nonlinear_arith)
            requires
                rp * (rt - rp) <= 0x1_0000_0000_0000_0000_0000,
                dl <= 0x100_0000_0000,
        ;
        assert(dl * dr <= 0x1_0000_0000_0000_0000_0000) by (nonlinear_arith)
            requires
                1 <= dl <= 0x100_0000_0000,
                1 <= dr <= 0x100_0000_0000,
        ;
        assert(dl * dr > 0) by (nonlinear_arith)
            requires
                1 <= dl,
                1 <= dr,
        ;
    }
    let num = lp * (lt - lp) * dr + rp * (rt - rp) * dl;
    proof {
        assert(num * dr * dl == num * (dl * dr)) by (nonlinear_arith);
    }
    (num, dl * dr)
}

/// The product of two 128-bit numbers, as its high and low 128-bit halves.
fn mul_wide(a: u128, b: u128) -> (r: (u128, u128))
    ensures
        r.0 * 0x1_0000_0000_0000_0000_0000_0000_0000_0000 + r.1 == a * b,
{
    let c: u128 = 0x1_0000_0000_0000_0000;
    let a1 = a / c;
    let a0 = a % c;
    let b1 = b / c;
    let b0 = b % c;
    proof {
        assert(a1 < c && b1 < c);
        assert(a0 * b0 < 0x1_0000_0000_0000_0000_0000_0000_0000_0000) by (nonlinear_arith)
            requires
                a0 < 0x1_0000_0000_0000_0000,
                b0 < 0x1_0000_0000_0000_0000,
        ;
        assert(a0 * b1 < 0x1_0000_0000_0000_0000_0000_0000_0000_0000) by (nonlinear_arith)
            requires
                a0 < 0x1_0000_0000_0000_0000,
                b1 < 0x1_0000_0000_0000_0000,
        ;
        assert(a1 * b0 < 0x1_0000_0000_0000_0000_0000_0000_0000_0000) by (nonlinear_arith)
            requires
                a1 < 0x1_0000_0000_0000_0000,
                b0 < 0x1_0000_0000_0000_0000,
        ;
        assert(a1 * b1 < 0x1_0000_0000_0000_0000_0000_0000_0000_0000) by (nonlinear_arith)
            requires
                a1 < 0x1_0000_0000_0000_0000,
                b1 < 0x1_0000_0000_0000_0000,
        ;
    }
    let p00 = a0 * b0;
    let p01 = a0 * b1;
    let p10 = a1 * b0;
    let p11 = a1 * b1;
    let h00 = p00 / c;
    let l00 = p00 % c;
    let h01 = p01 / c;
    let l01 = p01 % c;
    let h10 = p10 / c;
    let l10 = p10 % c;
    let mid = h00 + l01 + l10;
    let hm = mid / c;
    let lm = mid % c;
    let lo = lm * c + l00;
    proof {
        assert(a * b == p11 * 0x1_0000_0000_0000_0000_0000_0000_0000_0000 + (p01 + p10) * 0x1_0000_0000_0000_0000
            + p00) by (nonlinear_arith)
            requires
                a == a1 * 0x1_0000_0000_0000_0000 + a0,
                b == b1 * 0x1_0000_0000_0000_0000 + b0,
                p00 == a0 * b0,
                p01 == a0 * b1,
                p10 == a1 * b0,
                p11 == a1 * b1,
        ;
        assert(a * b < 0x1_0000_0000_0000_0000_0000_0000_0000_0000 * 0x1_0000_0000_0000_0000_0000_0000_0000_0000)
            by (nonlinear_arith)
            requires
                a < 0x1_0000_0000_0000_0000_0000_0000_0000_0000,
                b < 0x1_0000_0000_0000_0000_0000_0000_0000_0000,
        ;
        assert(a * b == (p11 + h01 + h10 + hm) * 0x1_0000_0000_0000_0000_0000_0000_0000_0000 + lo);
        assert(p11 + h01 + h10 + hm < 0x1_0000_0000_0000_0000_0000_0000_0000_0000);
    }
    let hi = p11 + h01 + h10 + hm;
    (hi, lo)
}

/// `a/b < c/d` for positive denominators, compared exactly.
fn score_less(a: (u128, u128), c: (u128, u128)) -> (r: bool)
    requires
        0 < a.1,
        0 < c.1,
    ensures
        r == (a.0 * c.1 < c.0 * a.1),
{
    let x = mul_wide(a.0, c.1);
    let y = mul_wide(c.0, a.1);
    x.0 < y.0 || (x.0 == y.0 && x.1 < y.1)
}

proof fn lemma_wsum_step(weight: Seq<usize>, rows: Seq<usize>, i: int)
    requires
        0 <= i < rows.len(),
    ensures
        wsum(weight, rows.take(i + 1)) == wsum(weight, rows.take(i)) + weight[rows[i] as int],
{
    assert(rows.take(i + 1).drop_last() =~= rows.take(i));
}

proof fn lemma_wsum_mono(weight: Seq<usize>, rows: Seq<usize>, i: int, j: int)
    requires
        0 <= i <= j <= rows.len(),
    ensures
        wsum(weight, rows.take(i)) <= wsum(weight, rows.take(j)),
    decreases j - i,
{
    if i < j {
        lemma_wsum_mono(weight, rows, i, j - 1);
        lemma_wsum_step(weight, rows, j - 1);
    }
}

proof fn lemma_wsum_push(weight: Seq<usize>, rows: Seq<usize>, x: usize)
    ensures
        wsum(weight, rows.push(x)) == wsum(weight, rows) + weight[x as int],
{
    assert(rows.push(x).drop_last() =~= rows);
}

/// Greedy top-down exact tree over distinct cell vectors (weighted Gini,
/// compared exactly as fractions).
fn fit(vecs: &Vec<Vec<i32>>, label: &Vec<bool>, weight: &Vec<usize>, rows: Vec<usize>, nf: usize, count: &mut usize) -> (t: Tree)
    requires
        label.len() == vecs.len(),
        weight.len() == vecs.len(),
        forall|i: int| 0 <= i < vecs.len() ==> (#[trigger] vecs@[i]).len() == nf,
        forall|i: int| 0 <= i < rows.len() ==> (#[trigger] rows@[i]) < vecs.len(),
        wsum(weight@, rows@) <= MAX_WEIGHT,
        forall|k: int| 0 <= k < rows.len() ==> weight@[#[trigger] rows@[k] as int] > 0,
        forall|a: int, b: int| 0 <= a < b < vecs.len() ==> (#[trigger] vecs@[a])@ != (#[trigger] vecs@[b])@,
    ensures
        tree_ok(t, nf as int),
        forall|k: int| 0 <= k < rows.len() ==> tree_eval(t, vecs@[#[trigger] rows@[k] as int]@) == label@[rows@[k] as int],
        rows.len() > 0 ==> tree_size(t) < rows.len(),
        tree_size(t) <= rows.len(),
    decreases rows.len(),
{
    proof {
        assert(rows@.take(rows.len() as int) =~= rows@);
        assert(rows@.take(0) =~= Seq::<usize>::empty());
    }
    let mut pos: usize = 0;
    let mut tot: usize = 0;
    let mut i: usize = 0;
    while i < rows.len()
        invariant
            0 <= i <= rows.len(),
            label.len() == vecs.len(),
            weight.len() == vecs.len(),
            forall|i: int| 0 <= i < rows.len() ==> (#[trigger] rows@[i]) < vecs.len(),
            wsum(weight@, rows@) <= MAX_WEIGHT,
            rows@.take(rows.len() as int) == rows@,
            tot == wsum(weight@, rows@.take(i as int)),
            pos == psum(weight@, label@, rows@.take(i as int)),
            pos <= tot,
        decreases rows.len() - i,
    {
        let r = rows[i];
        proof {
            lemma_wsum_step(weight@, rows@, i as int);
            lemma_psum_step(weight@, label@, rows@, i as int);
            lemma_wsum_mono(weight@, rows@, i as int + 1, rows.len() as int);
        }
        tot = tot + weight[r];
        if label[r] {
            pos = pos + weight[r];
        }
        i += 1;
    }
    proof {
        lemma_psum_extremes(weight@, label@, rows@);
    }
    if pos == 0 || pos == tot {
        return Tree::Leaf(pos == tot);
    }
    // Both labels occur among the rows.
    let ghost k_true = choose|k: int| 0 <= k < rows.len() && label@[#[trigger] rows@[k] as int];
    let ghost k_false = choose|k: int| 0 <= k < rows.len() && !label@[#[trigger] rows@[k] as int];
    *count = count.saturating_add(1);
    proof {
        if rows.len() == 0 {
            assert(tot == 0);
        }
    }
    let mut best: Option<(u128, u128, usize, i32)> = None;
    let mut f: usize = 0;
    while f < nf
        invariant
            0 <= f <= nf,
            rows.len() > 0,
            label.len() == vecs.len(),
            weight.len() == vecs.len(),
            forall|i: int| 0 <= i < vecs.len() ==> (#[trigger] vecs@[i]).len() == nf,
            forall|i: int| 0 <= i < rows.len() ==> (#[trigger] rows@[i]) < vecs.len(),
            wsum(weight@, rows@) <= MAX_WEIGHT,
            rows@.take(rows.len() as int) == rows@,
            tot == wsum(weight@, rows@),
            pos <= tot,
            best matches Some(b) ==> {
                &&& b.2 < nf
                &&& 0 < b.1
                &&& exists|k: int| 0 <= k < rows.len() && vecs@[rows@[k] as int]@[b.2 as int] <= b.3
                &&& exists|k: int| 0 <= k < rows.len() && vecs@[rows@[k] as int]@[b.2 as int] > b.3
            },
            best is None ==> forall|g: int, k: int| 0 <= g < f && 0 <= k < rows.len() ==> #[trigger] vecs@[rows@[k] as int]@[g] == vecs@[rows@[0] as int]@[g],
        decreases nf - f,
    {
        // The smallest value of feature `f` among the rows.
        proof {
            assert(vecs@[rows@[0] as int].len() == nf);
        }
        let mut cur: i32 = vecs[rows[0]][f];
        let mut i: usize = 1;
        while i < rows.len()
            invariant
                1 <= i <= rows.len(),
                f < nf,
                forall|i: int| 0 <= i < vecs.len() ==> (#[trigger] vecs@[i]).len() == nf,
                forall|i: int| 0 <= i < rows.len() ==> (#[trigger] rows@[i]) < vecs.len(),
                exists|k: int| 0 <= k < rows.len() && vecs@[rows@[k] as int]@[f as int] == cur,
                forall|k: int| 0 <= k < i ==> cur <= #[trigger] vecs@[rows@[k] as int]@[f as int],
            decreases rows.len() - i,
        {
            proof {
                assert(vecs@[rows@[i as int] as int].len() == nf);
            }
            let v = vecs[rows[i]][f];
            if v < cur {
                cur = v;
            }
            i += 1;
        }
        // Each value but the largest, in increasing order, as a threshold.
        let mut more = true;
        while more
            invariant
                f < nf,
                rows.len() > 0,
                label.len() == vecs.len(),
                weight.len() == vecs.len(),
                forall|i: int| 0 <= i < vecs.len() ==> (#[trigger] vecs@[i]).len() == nf,
                forall|i: int| 0 <= i < rows.len() ==> (#[trigger] rows@[i]) < vecs.len(),
                wsum(weight@, rows@) <= MAX_WEIGHT,
                rows@.take(rows.len() as int) == rows@,
                tot == wsum(weight@, rows@),
                pos <= tot,
                exists|k: int| 0 <= k < rows.len() && vecs@[rows@[k] as int]@[f as int] == cur,
                best matches Some(b) ==> {
                    &&& b.2 < nf
                    &&& 0 < b.1
                    &&& exists|k: int| 0 <= k < rows.len() && vecs@[rows@[k] as int]@[b.2 as int] <= b.3
                    &&& exists|k: int| 0 <= k < rows.len() && vecs@[rows@[k] as int]@[b.2 as int] > b.3
                },
                best is None ==> forall|g: int, k: int| 0 <= g < f && 0 <= k < rows.len() ==> #[trigger] vecs@[rows@[k] as int]@[g] == vecs@[rows@[0] as int]@[g],
                best is None ==> forall|k: int| 0 <= k < rows.len() ==> cur <= #[trigger] vecs@[rows@[k] as int]@[f as int],
                !more ==> forall|k: int| 0 <= k < rows.len() ==> #[trigger] vecs@[rows@[k] as int]@[f as int] <= cur,
            decreases 0x1_0000_0000int - cur - (if more { 0int } else { 1int }),
        {
            let mut next: Option<i32> = None;
            let mut i: usize = 0;
            while i < rows.len()
                invariant
                    0 <= i <= rows.len(),
                    f < nf,
                    forall|i: int| 0 <= i < vecs.len() ==> (#[trigger] vecs@[i]).len() == nf,
                    forall|i: int| 0 <= i < rows.len() ==> (#[trigger] rows@[i]) < vecs.len(),
                    next matches Some(nx) ==> nx > cur && exists|k: int| 0 <= k < rows.len() && vecs@[rows@[k] as int]@[f as int] == nx,
                    next is None ==> forall|k: int| 0 <= k < i ==> #[trigger] vecs@[rows@[k] as int]@[f as int] <= cur,
                decreases rows.len() - i,
            {
                proof {
                    assert(vecs@[rows@[i as int] as int].len() == nf);
                }
                let v = vecs[rows[i]][f];
                if v > cur {
                    match next {
                        None => {
                            next = Some(v);
                        },
                        Some(nx) => {
                            if v < nx {
                                next = Some(v);
                            }
                        },
                    }
                }
                i += 1;
            }
            match next {
                None => {
                    more = false;
                },
                Some(nx) => {
                    let thr = cur;
                    let mut lt: usize = 0;
                    let mut lp: usize = 0;
                    let mut at: usize = 0;
                    let mut ap: usize = 0;
                    let mut i: usize = 0;
                    while i < rows.len()
                        invariant
                            0 <= i <= rows.len(),
                            f < nf,
                            label.len() == vecs.len(),
                            weight.len() == vecs.len(),
                            forall|i: int| 0 <= i < vecs.len() ==> (#[trigger] vecs@[i]).len() == nf,
                            forall|i: int| 0 <= i < rows.len() ==> (#[trigger] rows@[i]) < vecs.len(),
                            wsum(weight@, rows@) <= MAX_WEIGHT,
                            rows@.take(rows.len() as int) == rows@,
                            at == wsum(weight@, rows@.take(i as int)),
                            ap <= at,
                            lp <= lt,
                            lt <= at,
                            lp <= ap,
                            lt - lp <= at - ap,
                        decreases rows.len() - i,
                    {
                        let r = rows[i];
                        proof {
                            lemma_wsum_step(weight@, rows@, i as int);
                            lemma_wsum_mono(weight@, rows@, i as int + 1, rows.len() as int);
                            assert(vecs@[r as int].len() == nf);
                        }
                        let w = weight[r];
                        at = at + w;
                        if label[r] {
                            ap = ap + w;
                        }
                        if vecs[r][f] <= thr {
                            lt = lt + w;
                            if label[r] {
                                lp = lp + w;
                            }
                        }
                        i += 1;
                    }
                    proof {
                        assert(at == tot);
                    }
                    let score = split_score(lp as u128, lt as u128, (ap - lp) as u128, (at - lt) as u128);
                    let better = match best {
                        None => true,
                        Some(b) => score_less(score, (b.0, b.1)),
                    };
                    if better {
                        best = Some((score.0, score.1, f, thr));
                    }
                    cur = nx;
                },
            }
        }
        proof {
            if best is None {
                assert forall|g: int, k: int| 0 <= g < f + 1 && 0 <= k < rows.len() implies #[trigger] vecs@[rows@[k] as int]@[g]
                    == vecs@[rows@[0] as int]@[g] by {
                    if g == f {
                        assert(vecs@[rows@[k] as int]@[f as int] <= cur);
                        assert(cur <= vecs@[rows@[k] as int]@[f as int]);
                        assert(vecs@[rows@[0] as int]@[f as int] <= cur);
                        assert(cur <= vecs@[rows@[0] as int]@[f as int]);
                    }
                }
            }
        }
        f += 1;
    }
    match best {
        None => {
            // Rows with both labels have distinct vectors, which differ in
            // some feature, so some threshold splits them.
            proof {
                let a = rows@[k_true] as int;
                let b = rows@[k_false] as int;
                assert(vecs@[a].len() == nf && vecs@[b].len() == nf);
                assert forall|g: int| 0 <= g < nf implies vecs@[a]@[g] == vecs@[b]@[g] by {
                    assert(vecs@[rows@[k_true] as int]@[g] == vecs@[rows@[0] as int]@[g]);
                    assert(vecs@[rows@[k_false] as int]@[g] == vecs@[rows@[0] as int]@[g]);
                }
                assert(vecs@[a]@ =~= vecs@[b]@);
                assert(a != b);
                if a < b {
                    assert(vecs@[a]@ != vecs@[b]@);
                } else {
                    assert(vecs@[b]@ != vecs@[a]@);
                }
            }
            Tree::Leaf(false)
        },
        Some((_, _, bf, thr)) => {
            let mut l: Vec<usize> = Vec::new();
            let mut r: Vec<usize> = Vec::new();
            let mut i: usize = 0;
            while i < rows.len()
                invariant
                    0 <= i <= rows.len(),
                    bf < nf,
                    forall|i: int| 0 <= i < vecs.len() ==> (#[trigger] vecs@[i]).len() == nf,
                    forall|i: int| 0 <= i < rows.len() ==> (#[trigger] rows@[i]) < vecs.len(),
                    l.len() + r.len() == i,
                    forall|k: int| 0 <= k < l.len() ==> (#[trigger] l@[k]) < vecs.len(),
                    forall|k: int| 0 <= k < r.len() ==> (#[trigger] r@[k]) < vecs.len(),
                    rows@.take(rows.len() as int) == rows@,
                    wsum(weight@, l@) + wsum(weight@, r@) == wsum(weight@, rows@.take(i as int)),
                    (exists|k: int| 0 <= k < i && vecs@[rows@[k] as int]@[bf as int] <= thr) ==> l.len() > 0,
                    (exists|k: int| 0 <= k < i && vecs@[rows@[k] as int]@[bf as int] > thr) ==> r.len() > 0,
                    forall|k: int| 0 <= k < rows.len() ==> weight@[#[trigger] rows@[k] as int] > 0,
                    forall|j: int| 0 <= j < l.len() ==> weight@[#[trigger] l@[j] as int] > 0,
                    forall|j: int| 0 <= j < r.len() ==> weight@[#[trigger] r@[j] as int] > 0,
                    forall|k: int|
                        0 <= k < i ==> (vecs@[#[trigger] rows@[k] as int]@[bf as int] <= thr ==> exists|j: int| 0 <= j < l.len() && l@[j] == rows@[k])
                            && (vecs@[rows@[k] as int]@[bf as int] > thr ==> exists|j: int| 0 <= j < r.len() && r@[j] == rows@[k]),
                decreases rows.len() - i,
            {
                let x = rows[i];
                proof {
                    assert(vecs@[x as int].len() == nf);
                    lemma_wsum_step(weight@, rows@, i as int);
                    lemma_wsum_push(weight@, l@, x);
                    lemma_wsum_push(weight@, r@, x);
                }
                let ghost l0 = l@;
                let ghost r0 = r@;
                if vecs[x][bf] <= thr {
                    l.push(x);
                    proof {
                        assert(l@[l0.len() as int] == x);
                        assert forall|k: int|
                            0 <= k < i + 1 implies (vecs@[#[trigger] rows@[k] as int]@[bf as int] <= thr ==> exists|j: int| 0 <= j < l.len() && l@[j] == rows@[k])
                                && (vecs@[rows@[k] as int]@[bf as int] > thr ==> exists|j: int| 0 <= j < r.len() && r@[j] == rows@[k]) by {
                            if k < i {
                                if vecs@[rows@[k] as int]@[bf as int] <= thr {
                                    let j = choose|j: int| 0 <= j < l0.len() && l0[j] == rows@[k];
                                    assert(l@[j] == l0[j]);
                                }
                            }
                        }
                    }
                } else {
                    r.push(x);
                    proof {
                        assert(r@[r0.len() as int] == x);
                        assert forall|k: int|
                            0 <= k < i + 1 implies (vecs@[#[trigger] rows@[k] as int]@[bf as int] <= thr ==> exists|j: int| 0 <= j < l.len() && l@[j] == rows@[k])
                                && (vecs@[rows@[k] as int]@[bf as int] > thr ==> exists|j: int| 0 <= j < r.len() && r@[j] == rows@[k]) by {
                            if k < i {
                                if vecs@[rows@[k] as int]@[bf as int] > thr {
                                    let j = choose|j: int| 0 <= j < r0.len() && r0[j] == rows@[k];
                                    assert(r@[j] == r0[j]);
                                }
                            }
                        }
                    }
                }
                i += 1;
            }
            proof {
                lemma_sums_nonneg(weight@, l@);
                lemma_sums_nonneg(weight@, r@);
            }
            let ghost lv = l@;
            let ghost rv = r@;
            let left = fit(vecs, label, weight, l, nf, count);
            let right = fit(vecs, label, weight, r, nf, count);
            let t = Tree::Split(Node { feat: bf, thr, left: Box::new(left), right: Box::new(right) });
            proof {
                assert forall|k: int| 0 <= k < rows.len() implies tree_eval(t, vecs@[#[trigger] rows@[k] as int]@) == label@[rows@[k] as int] by {
                    if vecs@[rows@[k] as int]@[bf as int] <= thr {
                        let j = choose|j: int| 0 <= j < lv.len() && lv[j] == rows@[k];
                        assert(tree_eval(left, vecs@[lv[j] as int]@) == label@[lv[j] as int]);
                    } else {
                        let j = choose|j: int| 0 <= j < rv.len() && rv[j] == rows@[k];
                        assert(tree_eval(right, vecs@[rv[j] as int]@) == label@[rv[j] as int]);
                    }
                }
            }
            t
        },
    }
}

proof fn lemma_sums_nonneg(weight: Seq<usize>, rows: Seq<usize>)
    ensures
        wsum(weight, rows) >= 0,
    decreases rows.len(),
{
    if rows.len() > 0 {
        lemma_sums_nonneg(weight, rows.drop_last());
    }
}

/// The tree's walk over feature values, its features read through the
/// vocabulary; the first undecided feature is the result.
spec fn tree_res(t: Tree, vocab: Seq<usize>, fv: spec_fn(int) -> Res<int>) -> Res<bool>
    decreases t,
{
    match t {
        Tree::Leaf(b) => Ok(b),
        Tree::Split(n) => match fv(vocab[n.feat as int] as int) {
            Err(b) => Err(b),
            Ok(x) => if x <= n.thr {
                tree_res(*n.left, vocab, fv)
            } else {
                tree_res(*n.right, vocab, fv)
            },
        },
    }
}

/// On values that all features have, the tree's walk is its answer on the
/// vector of those values.
proof fn lemma_tree_res_vector(t: Tree, vocab: Seq<usize>, fv: spec_fn(int) -> Res<int>, v: Seq<i32>)
    requires
        tree_ok(t, vocab.len() as int),
        forall|i: int| 0 <= i < vocab.len() ==> fv(vocab[i] as int) == Ok::<int, Blocked>(#[trigger] v[i] as int),
    ensures
        tree_res(t, vocab, fv) == Ok::<bool, Blocked>(tree_eval(t, v)),
    decreases t,
{
    match t {
        Tree::Leaf(_) => {},
        Tree::Split(n) => {
            assert(fv(vocab[n.feat as int] as int) == Ok::<int, Blocked>(v[n.feat as int] as int));
            lemma_tree_res_vector(*n.left, vocab, fv, v);
            lemma_tree_res_vector(*n.right, vocab, fv, v);
        },
    }
}

/// The walk of a node table from `node`, as the certificate walks it.
spec fn dag_res(nodes: Seq<[i32; 4]>, fv: spec_fn(int) -> Res<int>, node: int) -> Res<bool>
    decreases node,
{
    if node < 2 || node >= nodes.len() + 2 {
        Ok(node == 1)
    } else {
        let nd = nodes[node - 2];
        match fv(nd@[0] as int) {
            Err(b) => Err(b),
            Ok(x) => {
                let next = if x <= nd@[1] {
                    nd@[2]
                } else {
                    nd@[3]
                };
                if 0 <= next < node {
                    dag_res(nodes, fv, next as int)
                } else {
                    Ok(false)
                }
            },
        }
    }
}

/// The certificate's walk is the walk of its node table.
proof fn lemma_eval_dag(cert: &Cert, fv: spec_fn(int) -> Res<int>, node: int)
    ensures
        eval_res(cert, fv, node) == dag_res(cert.nodes@, fv, node),
    decreases node,
{
    if 2 <= node < cert.nodes.len() + 2 {
        let nd = cert.nodes@[node - 2];
        if let Ok(x) = fv(nd@[0] as int) {
            let next = if x <= nd@[1] {
                nd@[2]
            } else {
                nd@[3]
            };
            if 0 <= next < node {
                lemma_eval_dag(cert, fv, next as int);
            }
        }
    }
}

/// Nodes appended after a well-placed table leave the walks from its ids
/// unchanged.
proof fn lemma_dag_prefix(a: Seq<[i32; 4]>, b: Seq<[i32; 4]>, fv: spec_fn(int) -> Res<int>, node: int)
    requires
        a.len() <= b.len(),
        b.take(a.len() as int) == a,
        forall|j: int| 0 <= j < a.len() ==> node_ok(#[trigger] a[j], j + 2),
        node < a.len() + 2,
    ensures
        dag_res(b, fv, node) == dag_res(a, fv, node),
    decreases node,
{
    if 2 <= node {
        assert(b[node - 2] == b.take(a.len() as int)[node - 2]);
        let nd = a[node - 2];
        assert(node_ok(nd, node));
        if let Ok(x) = fv(nd@[0] as int) {
            let next = if x <= nd@[1] {
                nd@[2]
            } else {
                nd@[3]
            };
            if 0 <= next < node {
                lemma_dag_prefix(a, b, fv, next as int);
            }
        }
    }
}

/// The first node equal to `key`, if any.
fn find_node(nodes: &Vec<[i32; 4]>, key: &[i32; 4]) -> (r: Option<usize>)
    ensures
        r matches Some(j) ==> j < nodes.len() && nodes@[j as int] == *key,
        r is None ==> forall|k: int| 0 <= k < nodes.len() ==> nodes@[k] != *key,
{
    let mut j: usize = 0;
    while j < nodes.len()
        invariant
            0 <= j <= nodes.len(),
            forall|k: int| 0 <= k < j ==> nodes@[k] != *key,
        decreases nodes.len() - j,
    {
        if nodes[j][0] == key[0] && nodes[j][1] == key[1] && nodes[j][2] == key[2] && nodes[j][3] == key[3] {
            proof {
                assert(nodes@[j as int] =~= *key);
            }
            return Some(j);
        }
        j += 1;
    }
    None
}

/// Share the tree's splits into the certificate's node table; the id of
/// the tree's root, whose walk is the tree's.
fn cons(t: &Tree, vocab: &Vec<usize>, nodes: &mut Vec<[i32; 4]>) -> (id: u32)
    requires
        tree_ok(*t, vocab.len() as int),
        forall|i: int| 0 <= i < vocab.len() ==> #[trigger] vocab@[i] < NFEAT,
        forall|j: int| 0 <= j < old(nodes).len() ==> node_ok(#[trigger] old(nodes)@[j], j + 2),
        forall|j: int| 0 <= j < old(nodes).len() ==> vocab@.contains(#[trigger] old(nodes)@[j]@[0] as usize),
        old(nodes).len() + tree_size(*t) < 0x7fff_0000,
    ensures
        forall|j: int| 0 <= j < final(nodes).len() ==> node_ok(#[trigger] final(nodes)@[j], j + 2),
        forall|j: int| 0 <= j < final(nodes).len() ==> vocab@.contains(#[trigger] final(nodes)@[j]@[0] as usize),
        final(nodes).len() >= old(nodes).len(),
        final(nodes)@.take(old(nodes).len() as int) == old(nodes)@,
        final(nodes).len() <= old(nodes).len() + tree_size(*t),
        (id as int) < final(nodes).len() + 2,
        forall|fv: spec_fn(int) -> Res<int>| #[trigger] dag_res(final(nodes)@, fv, id as int) == tree_res(*t, vocab@, fv),
    decreases t,
{
    match t {
        Tree::Leaf(b) => {
            proof {
                assert(old(nodes)@.take(old(nodes).len() as int) =~= old(nodes)@);
            }
            if *b {
                1
            } else {
                0
            }
        },
        Tree::Split(n) => {
            let ghost n0 = nodes@;
            let l = cons(&n.left, vocab, nodes);
            let ghost n1 = nodes@;
            let r = cons(&n.right, vocab, nodes);
            let ghost n2 = nodes@;
            proof {
                assert(n2.take(n0.len() as int) =~= n0) by {
                    assert(n2.take(n1.len() as int).take(n0.len() as int) =~= n2.take(n0.len() as int));
                }
                assert forall|fv: spec_fn(int) -> Res<int>| #[trigger] dag_res(n2, fv, l as int) == tree_res(*n.left, vocab@, fv) by {
                    lemma_dag_prefix(n1, n2, fv, l as int);
                }
                assert(vocab@[n.feat as int] < NFEAT);
            }
            let key: [i32; 4] = [vocab[n.feat] as i32, n.thr, l as i32, r as i32];
            if let Some(j) = find_node(nodes, &key) {
                proof {
                    assert(nodes@[j as int] =~= key);
                    assert(node_ok(n2[j as int], j + 2));
                    assert(key@[0] as int == vocab@[n.feat as int] as int);
                    assert forall|fv: spec_fn(int) -> Res<int>| #[trigger] dag_res(nodes@, fv, j + 2) == tree_res(*t, vocab@, fv) by {
                        assert(nodes@[j as int] == key);
                        assert(dag_res(nodes@, fv, l as int) == tree_res(*n.left, vocab@, fv));
                        assert(dag_res(nodes@, fv, r as int) == tree_res(*n.right, vocab@, fv));
                    }
                }
                return (j + 2) as u32;
            }
            let ghost before = nodes@;
            proof {
                assert(node_ok(key, nodes.len() + 2));
            }
            nodes.push(key);
            proof {
                assert(nodes@.take(before.len() as int) =~= before);
                assert(nodes@.take(n0.len() as int) =~= n0) by {
                    assert(nodes@.take(before.len() as int).take(n0.len() as int) =~= nodes@.take(n0.len() as int));
                }
                assert forall|fv: spec_fn(int) -> Res<int>| #[trigger] dag_res(nodes@, fv, nodes.len() + 1) == tree_res(*t, vocab@, fv) by {
                    lemma_dag_prefix(before, nodes@, fv, l as int);
                    lemma_dag_prefix(before, nodes@, fv, r as int);
                    assert(nodes@[nodes.len() - 1] == key);
                    assert(key@[0] as int == vocab@[n.feat as int] as int);
                }
                assert forall|k: int| 0 <= k < nodes.len() implies node_ok(#[trigger] nodes@[k], k + 2) by {
                    if k < before.len() {
                        assert(nodes@[k] == before[k]);
                    }
                }
                assert(vocab@[n.feat as int] == key@[0] as usize);
                assert forall|k: int| 0 <= k < nodes.len() implies vocab@.contains(#[trigger] nodes@[k]@[0] as usize) by {
                    if k < before.len() {
                        assert(nodes@[k] == before[k]);
                    } else {
                        assert(nodes@[k] == key);
                    }
                }
            }
            (nodes.len() + 1) as u32
        },
    }
}

// ---------------------------------------------------------------------
// Cells and the fixpoint
// ---------------------------------------------------------------------

/// Some entry of the list is `c`.
pub open spec fn covered(cell_of: Seq<usize>, c: int) -> bool {
    exists|k: int| 0 <= k < cell_of.len() && #[trigger] cell_of[k] == c
}

/// The indices `0..k` in order.
pub open spec fn iota(k: int) -> Seq<usize> {
    Seq::new(k as nat, |i: int| i as usize)
}

proof fn lemma_wsum_update(w: Seq<usize>, k: int, c: int, x: usize)
    requires
        0 <= k <= w.len() <= usize::MAX,
        0 <= c < w.len(),
    ensures
        wsum(w.update(c, x), iota(k)) == wsum(w, iota(k)) + if c < k {
            x - w[c]
        } else {
            0
        },
    decreases k,
{
    if k > 0 {
        assert(iota(k).drop_last() =~= iota(k - 1));
        assert(iota(k).last() == (k - 1) as usize);
        lemma_wsum_update(w, k - 1, c, x);
        assert(wsum(w.update(c, x), iota(k)) == wsum(w.update(c, x), iota(k - 1)) + w.update(c, x)[k - 1]);
        assert(wsum(w, iota(k)) == wsum(w, iota(k - 1)) + w[k - 1]);
    }
}

/// The number of `true` entries among the first `k`.
pub open spec fn count_true(s: Seq<bool>, k: int) -> nat
    decreases k,
{
    if k <= 0 {
        0
    } else {
        count_true(s, k - 1) + if s[k - 1] {
            1nat
        } else {
            0nat
        }
    }
}

/// The sum of the entries.
pub open spec fn sum_of(s: Seq<usize>) -> int
    decreases s.len(),
{
    if s.len() == 0 {
        0
    } else {
        sum_of(s.drop_last()) + s.last()
    }
}

proof fn lemma_count_drop(s: Seq<bool>, k: int, c: int)
    requires
        0 <= c < s.len(),
        0 <= k <= s.len(),
        s[c],
    ensures
        count_true(s.update(c, false), k) + (if c < k {
            1int
        } else {
            0int
        }) == count_true(s, k),
    decreases k,
{
    if k > 0 {
        lemma_count_drop(s, k - 1, c);
    }
}

/// The feature vector of a position over the vocabulary.
fn feature_vec(setup: &Setup, p: &Position, roles: &Roles, vocab: &Vec<usize>) -> (v: Vec<i32>)
    requires
        setup.wf(),
        roles.wf(setup),
        p.wf(setup),
        forall|i: int| 0 <= i < vocab.len() ==> #[trigger] vocab@[i] < NFEAT,
    ensures
        describes(setup, p.sqs@, p.stm, *roles, vocab@, v@),
{
    proof {
        lemma_position_fits(setup, p);
    }
    let mut v: Vec<i32> = Vec::new();
    let mut i: usize = 0;
    while i < vocab.len()
        invariant
            setup.wf(),
            roles.wf(setup),
            p.wf(setup),
            crate::board::fits(setup, p),
            forall|i: int| 0 <= i < vocab.len() ==> #[trigger] vocab@[i] < NFEAT,
            0 <= i <= vocab.len(),
            v.len() == i,
            forall|j: int|
                0 <= j < i ==> feature_spec(setup, position_answers(p.sqs@), p.stm, *roles, vocab@[j] as int) == Ok::<
                    int,
                    Blocked,
                >(#[trigger] v@[j] as int),
        decreases vocab.len() - i,
    {
        proof {
            assert(vocab@[i as int] < NFEAT);
            lemma_features_ok(setup, position_answers(p.sqs@), p.stm, *roles, vocab@[i as int] as int);
        }
        let x = match feature(setup, p, &mut (), p.stm, roles, vocab[i]) {
            Ok(x) => x,
            Err(_) => 0,
        };
        v.push(x);
        i += 1;
    }
    v
}

/// Two vectors with the same entries.
fn same_vec(a: &Vec<i32>, b: &Vec<i32>) -> (r: bool)
    ensures
        r == (a@ == b@),
{
    if a.len() != b.len() {
        return false;
    }
    let mut i: usize = 0;
    while i < a.len()
        invariant
            a.len() == b.len(),
            0 <= i <= a.len(),
            forall|k: int| 0 <= k < i ==> a@[k] == b@[k],
        decreases a.len() - i,
    {
        if a[i] != b[i] {
            return false;
        }
        i += 1;
    }
    proof {
        assert(a@ =~= b@);
    }
    true
}

/// A hash of a feature vector.
pub open spec fn vec_hash(v: Seq<i32>) -> u64
    decreases v.len(),
{
    if v.len() == 0 {
        0x811c_9dc5
    } else {
        vstd::wrapping::u64_specs::wrapping_add(
            vstd::wrapping::u64_specs::wrapping_mul(vec_hash(v.drop_last()), 1_000_003),
            v.last() as u32 as u64,
        )
    }
}

fn hash_vec(v: &Vec<i32>) -> (h: u64)
    ensures
        h == vec_hash(v@),
{
    let mut h: u64 = 0x811c_9dc5;
    let mut i: usize = 0;
    while i < v.len()
        invariant
            0 <= i <= v.len(),
            h == vec_hash(v@.take(i as int)),
        decreases v.len() - i,
    {
        proof {
            assert(v@.take(i as int + 1).drop_last() =~= v@.take(i as int));
        }
        h = h.wrapping_mul(1_000_003).wrapping_add(v[i] as u32 as u64);
        i += 1;
    }
    proof {
        assert(v@.take(v.len() as int) =~= v@);
    }
    h
}

/// The distinct feature vectors seen so far, with their ids bucketed by hash.
struct CellIndex {
    vecs: Vec<Vec<i32>>,
    buckets: HashMapWithView<u64, Vec<usize>>,
}

impl CellIndex {
    /// Every cell is listed in the bucket of its hash, and buckets list cells.
    spec fn wf(&self) -> bool {
        &&& forall|c: int| 0 <= c < self.vecs.len() ==> #[trigger] self.buckets@.contains_key(vec_hash(self.vecs@[c]@))
            && self.buckets@[vec_hash(self.vecs@[c]@)]@.contains(c as usize)
        &&& forall|h: u64, k: int| #[trigger] self.buckets@.contains_key(h) && 0 <= k < self.buckets@[h].len() ==> (
        #[trigger] self.buckets@[h]@[k]) < self.vecs.len()
        &&& forall|c1: int, c2: int| 0 <= c1 < c2 < self.vecs.len() ==> (#[trigger] self.vecs@[c1])@ != (#[trigger] self.vecs@[c2])@
    }

    fn new() -> (ix: CellIndex)
        ensures
            ix.wf(),
            ix.vecs.len() == 0,
    {
        CellIndex { vecs: Vec::new(), buckets: HashMapWithView::new() }
    }

    /// The cell with this vector, if there is one.
    fn find(&self, v: &Vec<i32>) -> (c: Option<usize>)
        requires
            self.wf(),
        ensures
            c matches Some(c) ==> c < self.vecs.len() && self.vecs@[c as int]@ == v@,
            c is None ==> forall|k: int| 0 <= k < self.vecs.len() ==> (#[trigger] self.vecs@[k])@ != v@,
    {
        let h = hash_vec(v);
        match self.buckets.get(&h) {
            None => {
                proof {
                    assert forall|k: int| 0 <= k < self.vecs.len() implies (#[trigger] self.vecs@[k])@ != v@ by {
                        assert(self.buckets@.contains_key(vec_hash(self.vecs@[k]@)));
                    }
                }
                None
            },
            Some(ids) => {
                let mut i: usize = 0;
                while i < ids.len()
                    invariant
                        self.wf(),
                        self.buckets@.contains_key(h),
                        *ids == self.buckets@[h],
                        h == vec_hash(v@),
                        0 <= i <= ids.len(),
                        forall|j: int| 0 <= j < i ==> (#[trigger] self.vecs@[ids@[j] as int])@ != v@,
                    decreases ids.len() - i,
                {
                    let c = ids[i];
                    proof {
                        assert(self.buckets@.contains_key(h) && 0 <= i < self.buckets@[h].len());
                        assert(self.buckets@[h]@[i as int] < self.vecs.len());
                    }
                    if same_vec(&self.vecs[c], v) {
                        return Some(c);
                    }
                    i += 1;
                }
                proof {
                    assert forall|k: int| 0 <= k < self.vecs.len() implies (#[trigger] self.vecs@[k])@ != v@ by {
                        if self.vecs@[k]@ == v@ {
                            assert(self.buckets@[h]@.contains(k as usize));
                            let j = choose|j: int| 0 <= j < ids.len() && ids@[j] == k as usize;
                            assert(self.vecs@[ids@[j] as int]@ != v@);
                        }
                    }
                }
                None
            },
        }
    }

    /// Add a new cell with this vector; its id.
    fn add(&mut self, v: Vec<i32>) -> (c: usize)
        requires
            old(self).wf(),
            forall|k: int| 0 <= k < old(self).vecs.len() ==> (#[trigger] old(self).vecs@[k])@ != v@,
        ensures
            final(self).wf(),
            c == old(self).vecs.len(),
            final(self).vecs@ == old(self).vecs@.push(v),
    {
        let h = hash_vec(&v);
        let c = self.vecs.len();
        let mut ids: Vec<usize> = match self.buckets.get(&h) {
            Some(ids) => {
                let x = ids.clone();
                proof {
                    assert(x@ =~= ids@);
                }
                x
            },
            None => Vec::new(),
        };
        let ghost old_ids = ids@;
        ids.push(c);
        let ghost before = self.buckets@;
        self.vecs.push(v);
        self.buckets.insert(h, ids);
        proof {
            assert forall|k: int| 0 <= k < self.vecs.len() implies #[trigger] self.buckets@.contains_key(vec_hash(self.vecs@[k]@))
                && self.buckets@[vec_hash(self.vecs@[k]@)]@.contains(k as usize) by {
                let hk = vec_hash(self.vecs@[k]@);
                if k < c {
                    assert(self.vecs@[k] == old(self).vecs@[k]);
                    assert(old(self).buckets@.contains_key(vec_hash(old(self).vecs@[k]@)));
                    assert(before.contains_key(hk) && before[hk]@.contains(k as usize));
                    if hk == h {
                        let j = choose|j: int| 0 <= j < before[hk].len() && before[hk]@[j] == k as usize;
                        assert(self.buckets@[hk]@[j] == k as usize);
                    }
                } else {
                    assert(self.buckets@[h]@[old_ids.len() as int] == c);
                }
            }
            assert forall|hh: u64, k: int| #[trigger] self.buckets@.contains_key(hh) && 0 <= k < self.buckets@[hh].len() implies (
            #[trigger] self.buckets@[hh]@[k]) < self.vecs.len() by {
                if hh != h {
                    assert(before.contains_key(hh));
                    assert(before[hh]@[k] < c);
                } else if k < old_ids.len() {
                    assert(before.contains_key(h));
                    assert(before[h]@[k] < c);
                }
            }
            assert forall|c1: int, c2: int| 0 <= c1 < c2 < self.vecs.len() implies (#[trigger] self.vecs@[c1])@ != (#[trigger] self.vecs@[c2])@ by {
                assert(self.vecs@[c1] == old(self).vecs@[c1]);
                if c2 < c {
                    assert(self.vecs@[c2] == old(self).vecs@[c2]);
                }
            }
        }
        c
    }
}

/// Successor place `s2` is a legal position whose cell is permitted.
pub open spec fn stays(permitted: Seq<bool>, cell_of: Seq<usize>, s2: usize) -> bool {
    (s2 as int) < cell_of.len() && permitted[cell_of[s2 as int] as int]
}

/// A position fails its obligation among the permitted cells: White to
/// move has no move into them (or, with no move at all, is mated); Black
/// to move has a move out of them.
pub open spec fn fails(permitted: Seq<bool>, cell_of: Seq<usize>, white: bool, mated: bool, next: Seq<usize>) -> bool {
    if white {
        if next.len() == 0 {
            mated
        } else {
            !exists|t: int| 0 <= t < next.len() && #[trigger] stays(permitted, cell_of, next[t])
        }
    } else {
        exists|t: int| 0 <= t < next.len() && !#[trigger] stays(permitted, cell_of, next[t])
    }
}

/// No position of a permitted cell fails its obligation.
pub open spec fn closed(permitted: Seq<bool>, cell_of: Seq<usize>, stm_white: Seq<bool>, mated: Seq<bool>, succ: Seq<Vec<usize>>) -> bool {
    forall|k: int|
        0 <= k < cell_of.len() && #[trigger] permitted[cell_of[k] as int] ==> !fails(permitted, cell_of, stm_white[k], mated[k], succ[k]@)
}

/// Every cell of `s` is a cell of `t`.
pub open spec fn within(s: Seq<bool>, t: Seq<bool>) -> bool {
    forall|x: int| 0 <= x < s.len() && #[trigger] s[x] ==> t[x]
}

/// Some position before `k` in cell `x` fails its obligation among the
/// permitted cells.
pub open spec fn cell_fails(
    permitted: Seq<bool>,
    cell_of: Seq<usize>,
    stm_white: Seq<bool>,
    mated: Seq<bool>,
    succ: Seq<Vec<usize>>,
    x: int,
    k: int,
) -> bool {
    exists|k2: int| 0 <= k2 < k && cell_of[k2] == x && #[trigger] fails(permitted, cell_of, stm_white[k2], mated[k2], succ[k2]@)
}

/// A position that fails among the permitted cells fails among fewer.
proof fn lemma_fails_shrink(s: Seq<bool>, t: Seq<bool>, cell_of: Seq<usize>, white: bool, mated: bool, next: Seq<usize>)
    requires
        s.len() == t.len(),
        forall|j: int| 0 <= j < cell_of.len() ==> (#[trigger] cell_of[j]) < t.len(),
        within(s, t),
        fails(t, cell_of, white, mated, next),
    ensures
        fails(s, cell_of, white, mated, next),
{
    assert forall|x: usize| #[trigger] stays(s, cell_of, x) implies stays(t, cell_of, x) by {
        assert(s[cell_of[x as int] as int]);
    }
    if !white {
        let u = choose|u: int| 0 <= u < next.len() && !#[trigger] stays(t, cell_of, next[u]);
        assert(!stays(s, cell_of, next[u]));
    }
}

/// Drop, round by round, every cell with a position that fails its
/// obligation among the cells still permitted, until none does; the cells
/// left, and how many each round dropped.
fn prune(cells: usize, cell_of: &Vec<usize>, stm_white: &Vec<bool>, mated: &Vec<bool>, succ: &Vec<Vec<usize>>) -> (res: (Vec<bool>, Vec<usize>))
    requires
        stm_white.len() == cell_of.len(),
        mated.len() == cell_of.len(),
        succ.len() == cell_of.len(),
        forall|j: int| 0 <= j < cell_of.len() ==> (#[trigger] cell_of@[j]) < cells,
    ensures
        res.0.len() == cells,
        sum_of(res.1@) + count_true(res.0@, cells as int) == cells,
        closed(res.0@, cell_of@, stm_white@, mated@, succ@),
        forall|t: Seq<bool>| t.len() == cells && #[trigger] closed(t, cell_of@, stm_white@, mated@, succ@) ==> within(t, res.0@),
{
    let np = cell_of.len();
    let mut permitted: Vec<bool> = Vec::new();
    let mut c: usize = 0;
    while c < cells
        invariant
            0 <= c <= cells,
            permitted.len() == c,
            forall|x: int| 0 <= x < c ==> #[trigger] permitted@[x],
        decreases cells - c,
    {
        permitted.push(true);
        c += 1;
    }
    let mut removed_by_round: Vec<usize> = Vec::new();
    let mut go = true;
    proof {
        lemma_count_all(permitted@, cells as int);
    }
    while go
        invariant
            permitted.len() == cells,
            sum_of(removed_by_round@) + count_true(permitted@, cells as int) == cells,
            np == cell_of.len(),
            np == stm_white.len(),
            np == mated.len(),
            np == succ.len(),
            forall|j: int| 0 <= j < cell_of.len() ==> (#[trigger] cell_of@[j]) < cells,
            !go ==> closed(permitted@, cell_of@, stm_white@, mated@, succ@),
            forall|t: Seq<bool>| t.len() == cells && #[trigger] closed(t, cell_of@, stm_white@, mated@, succ@) ==> within(t, permitted@),
        decreases count_true(permitted@, cells as int) + if go { 1int } else { 0int },
    {
        let ghost start = permitted@;
        let mut kill: Vec<bool> = Vec::new();
        let mut c: usize = 0;
        while c < cells
            invariant
                0 <= c <= cells,
                kill.len() == c,
                forall|x: int| 0 <= x < c ==> !#[trigger] kill@[x],
            decreases cells - c,
        {
            kill.push(false);
            c += 1;
        }
        let mut k: usize = 0;
        while k < np
            invariant
                permitted.len() == cells,
                permitted@ == start,
                kill.len() == cells,
                np == cell_of.len(),
                np == stm_white.len(),
                np == mated.len(),
                np == succ.len(),
                forall|j: int| 0 <= j < cell_of.len() ==> (#[trigger] cell_of@[j]) < cells,
                forall|x: int| 0 <= x < cells && #[trigger] kill@[x] ==> start[x],
                forall|x: int| 0 <= x < cells && #[trigger] kill@[x] ==> cell_fails(start, cell_of@, stm_white@, mated@, succ@, x, k as int),
                0 <= k <= np,
                forall|k2: int|
                    0 <= k2 < k && start[#[trigger] cell_of@[k2] as int] ==> kill@[cell_of@[k2] as int] || !fails(
                        start,
                        cell_of@,
                        stm_white@[k2],
                        mated@[k2],
                        succ@[k2]@,
                    ),
            decreases np - k,
        {
            let c = cell_of[k];
            proof {
                assert forall|x: int| 0 <= x < cells && #[trigger] kill@[x] implies cell_fails(start, cell_of@, stm_white@, mated@, succ@, x, k + 1) by {
                    let k2 = choose|k2: int| 0 <= k2 < k && cell_of@[k2] == x && #[trigger] fails(start, cell_of@, stm_white@[k2], mated@[k2], succ@[k2]@);
                    assert(fails(start, cell_of@, stm_white@[k2], mated@[k2], succ@[k2]@));
                }
            }
            if permitted[c] && !kill[c] {
                let ss = &succ[k];
                let bad = if stm_white[k] {
                    if ss.len() == 0 {
                        mated[k]
                    } else {
                        let mut any = false;
                        let mut t: usize = 0;
                        while t < ss.len()
                            invariant
                                0 <= t <= ss.len(),
                                permitted.len() == cells,
                                np == cell_of.len(),
                                forall|j: int| 0 <= j < cell_of.len() ==> (#[trigger] cell_of@[j]) < cells,
                                any == exists|t2: int| 0 <= t2 < t && #[trigger] stays(permitted@, cell_of@, ss@[t2]),
                            decreases ss.len() - t,
                        {
                            let s2 = ss[t];
                            proof {
                                assert(stays(permitted@, cell_of@, ss@[t as int]) == (s2 < np && permitted@[cell_of@[s2 as int] as int]));
                            }
                            if s2 < np && permitted[cell_of[s2]] {
                                any = true;
                            }
                            t += 1;
                        }
                        !any
                    }
                } else {
                    let mut all = true;
                    let mut t: usize = 0;
                    while t < ss.len()
                        invariant
                            0 <= t <= ss.len(),
                            permitted.len() == cells,
                            np == cell_of.len(),
                            forall|j: int| 0 <= j < cell_of.len() ==> (#[trigger] cell_of@[j]) < cells,
                            all == forall|t2: int| 0 <= t2 < t ==> #[trigger] stays(permitted@, cell_of@, ss@[t2]),
                        decreases ss.len() - t,
                    {
                        let s2 = ss[t];
                        proof {
                            assert(stays(permitted@, cell_of@, ss@[t as int]) == (s2 < np && permitted@[cell_of@[s2 as int] as int]));
                        }
                        if !(s2 < np && permitted[cell_of[s2]]) {
                            all = false;
                        }
                        t += 1;
                    }
                    !all
                };
                proof {
                    assert(ss@ == succ@[k as int]@);
                    assert(bad == fails(start, cell_of@, stm_white@[k as int], mated@[k as int], succ@[k as int]@));
                }
                let ghost kill0 = kill@;
                if bad {
                    kill.set(c, true);
                }
                proof {
                    assert forall|k2: int|
                        0 <= k2 < k + 1 && start[#[trigger] cell_of@[k2] as int] implies kill@[cell_of@[k2] as int] || !fails(
                            start,
                            cell_of@,
                            stm_white@[k2],
                            mated@[k2],
                            succ@[k2]@,
                        ) by {
                        if k2 < k && kill0[cell_of@[k2] as int] {
                            assert(kill@[cell_of@[k2] as int]);
                        }
                    }
                    assert forall|x: int| 0 <= x < cells && #[trigger] kill@[x] implies cell_fails(start, cell_of@, stm_white@, mated@, succ@, x, k + 1) by {
                        if kill0[x] {
                            let k2 = choose|k2: int| 0 <= k2 < k && cell_of@[k2] == x && #[trigger] fails(start, cell_of@, stm_white@[k2], mated@[k2], succ@[k2]@);
                            assert(fails(start, cell_of@, stm_white@[k2], mated@[k2], succ@[k2]@));
                        } else {
                            assert(x == c);
                            assert(fails(start, cell_of@, stm_white@[k as int], mated@[k as int], succ@[k as int]@));
                        }
                    }
                }
            }
            k += 1;
        }
        let mut n: usize = 0;
        let mut c: usize = 0;
        while c < cells
            invariant
                0 <= c <= cells,
                kill.len() == cells,
                n <= c,
                n == count_true(kill@, c as int),
                n > 0 ==> exists|x: int| 0 <= x < c && #[trigger] kill@[x],
                n == 0 ==> forall|x: int| 0 <= x < c ==> !#[trigger] kill@[x],
            decreases cells - c,
        {
            if kill[c] {
                n += 1;
            }
            c += 1;
        }
        if n == 0 {
            proof {
                assert forall|k2: int| 0 <= k2 < cell_of.len() && #[trigger] permitted@[cell_of@[k2] as int] implies !fails(
                    permitted@,
                    cell_of@,
                    stm_white@[k2],
                    mated@[k2],
                    succ@[k2]@,
                ) by {
                    assert(!kill@[cell_of@[k2] as int]);
                }
            }
            go = false;
        } else {
            let ghost rb0 = removed_by_round@;
            removed_by_round.push(n);
            proof {
                assert(removed_by_round@.drop_last() =~= rb0);
            }
            let ghost x0 = choose|x: int| 0 <= x < cells && #[trigger] kill@[x];
            let mut c: usize = 0;
            while c < cells
                invariant
                    0 <= c <= cells,
                    kill.len() == cells,
                    permitted.len() == cells,
                    np == cell_of.len(),
                    start.len() == cells,
                    0 <= x0 < cells,
                    kill@[x0],
                    forall|x: int| 0 <= x < cells && #[trigger] kill@[x] ==> start[x],
                    forall|x: int| c <= x < cells ==> permitted@[x] == start[x],
                    forall|x: int| 0 <= x < c ==> #[trigger] permitted@[x] == (start[x] && !kill@[x]),
                    count_true(permitted@, cells as int) + (if x0 < c { 1int } else { 0int }) <= count_true(start, cells as int),
                    count_true(permitted@, cells as int) + count_true(kill@, c as int) == count_true(start, cells as int),
                    n == count_true(kill@, cells as int),
                    sum_of(removed_by_round@) == sum_of(rb0) + n,
                    sum_of(rb0) + count_true(start, cells as int) == cells,
                decreases cells - c,
            {
                if kill[c] {
                    proof {
                        assert(permitted@[c as int]);
                        lemma_count_drop(permitted@, cells as int, c as int);
                    }
                    permitted.set(c, false);
                }
                c += 1;
            }
            proof {
                assert forall|t: Seq<bool>| t.len() == cells && #[trigger] closed(t, cell_of@, stm_white@, mated@, succ@) implies within(t, permitted@) by {
                    assert(within(t, start));
                    assert forall|x: int| 0 <= x < t.len() && t[x] implies permitted@[x] by {
                        if kill@[x] {
                            let k2 = choose|k2: int| 0 <= k2 < np && cell_of@[k2] == x && #[trigger] fails(start, cell_of@, stm_white@[k2], mated@[k2], succ@[k2]@);
                            lemma_fails_shrink(t, start, cell_of@, stm_white@[k2], mated@[k2], succ@[k2]@);
                            assert(t[cell_of@[k2] as int]);
                        }
                        assert(permitted@[x] == (start[x] && !kill@[x]));
                    }
                }
            }
        }
    }
    (permitted, removed_by_round)
}

/// Index `i` names a legal position that the certificate holds (White
/// protected).
pub open spec fn held(setup: &Setup, cert: &Cert, vals: Seq<Val>) -> spec_fn(int) -> bool {
    |i: int|
        vals[i] != Val::Illegal && safe_spec(setup, cert, position_sqs(setup, i), position_stm(i), roles_spec(setup, Color::White))
}

/// What the build records of legal position `i`: its cell's vector
/// describes it; whether White is to move; whether it is mated; and, for
/// each legal move in order, the place of the successor among the legal
/// positions.
pub open spec fn recorded(
    setup: &Setup,
    roles: Roles,
    vocab: Seq<usize>,
    slot_of: Seq<usize>,
    i: int,
    v: Seq<i32>,
    white: bool,
    mated: bool,
    next: Seq<usize>,
) -> bool {
    let sqs = position_sqs(setup, i);
    let stm = position_stm(i);
    &&& describes(setup, sqs, stm, roles, vocab, v)
    &&& white == (stm == Color::White)
    &&& match legal_moves_spec(setup, position_answers(sqs), stm) {
        Ok(ms) => {
            &&& next.len() == ms.len()
            &&& forall|m: int|
                0 <= m < ms.len() ==> #[trigger] next[m] == slot_of[index_spec(setup, play_spec(sqs, ms[m]), flip_spec(stm))]
            &&& mated == (ms.len() == 0 && in_check_spec(setup, position_answers(sqs), stm) == Ok::<bool, Blocked>(true))
        },
        Err(_) => false,
    }
}

/// A position whose features are the vector `v` is in the certificate's
/// region exactly when the tree answers yes on `v`.
proof fn lemma_exact_at(
    setup: &Setup,
    cert: &Cert,
    roles: Roles,
    vocab: Seq<usize>,
    tree: Tree,
    sqs: Seq<Option<Sq>>,
    stm: Color,
    v: Seq<i32>,
)
    requires
        tree_ok(tree, vocab.len() as int),
        describes(setup, sqs, stm, roles, vocab, v),
        forall|fv: spec_fn(int) -> Res<int>| #[trigger] dag_res(cert.nodes@, fv, cert.root as int) == tree_res(tree, vocab, fv),
    ensures
        safe_spec(setup, cert, sqs, stm, roles) == tree_eval(tree, v),
{
    let fv = feature_fn(setup, position_answers(sqs), stm, roles);
    lemma_eval_dag(cert, fv, cert.root as int);
    assert(dag_res(cert.nodes@, fv, cert.root as int) == tree_res(tree, vocab, fv));
    assert forall|i: int| 0 <= i < vocab.len() implies fv(vocab[i] as int) == Ok::<int, Blocked>(#[trigger] v[i] as int) by {
        assert(feature_spec(setup, position_answers(sqs), stm, roles, vocab[i] as int) == Ok::<int, Blocked>(v[i] as int));
    }
    lemma_tree_res_vector(tree, vocab, fv, v);
}

/// A legal position in the synthesized region meets its obligation: on
/// White's turn some legal move stays in the region (or, with no legal
/// move, White is not in check); on Black's turn every legal move does.
proof fn lemma_inductive(
    setup: &Setup,
    cert: &Cert,
    roles: Roles,
    vocab: Seq<usize>,
    vals: Seq<Val>,
    idx: Seq<usize>,
    slot_of: Seq<usize>,
    vecs: Seq<Vec<i32>>,
    cell_of: Seq<usize>,
    stm_white: Seq<bool>,
    mated: Seq<bool>,
    succ: Seq<Vec<usize>>,
    permitted: Seq<bool>,
    tree: Tree,
    i: int,
)
    requires
        setup.wf(),
        roles.protected == Color::White,
        vals.len() == size_spec(setup),
        listing(vals, idx, slot_of),
        cell_of.len() == idx.len(),
        stm_white.len() == idx.len(),
        mated.len() == idx.len(),
        succ.len() == idx.len(),
        forall|k: int| 0 <= k < idx.len() ==> (#[trigger] cell_of[k]) < vecs.len(),
        forall|k: int|
            0 <= k < idx.len() ==> #[trigger] recorded(
                setup,
                roles,
                vocab,
                slot_of,
                idx[k] as int,
                vecs[cell_of[k] as int]@,
                stm_white[k],
                mated[k],
                succ[k]@,
            ),
        permitted.len() == vecs.len(),
        closed(permitted, cell_of, stm_white, mated, succ),
        tree_ok(tree, vocab.len() as int),
        forall|c: int| 0 <= c < vecs.len() ==> tree_eval(tree, (#[trigger] vecs[c])@) == permitted[c],
        forall|fv: spec_fn(int) -> Res<int>| #[trigger] dag_res(cert.nodes@, fv, cert.root as int) == tree_res(tree, vocab, fv),
        0 <= i < vals.len(),
        vals[i] != Val::Illegal,
        safe_spec(setup, cert, position_sqs(setup, i), position_stm(i), roles),
    ensures
        obligation_spec(setup, cert, roles, position_sqs(setup, i), position_stm(i)),
{
    let sqs = position_sqs(setup, i);
    let stm = position_stm(i);
    let k = slot_of[i] as int;
    assert(k < idx.len() && idx[k] == i);
    lemma_position_wf(setup, i);
    assert(recorded(setup, roles, vocab, slot_of, idx[k] as int, vecs[cell_of[k] as int]@, stm_white[k], mated[k], succ[k]@));
    lemma_exact_at(setup, cert, roles, vocab, tree, sqs, stm, vecs[cell_of[k] as int]@);
    assert(permitted[cell_of[k] as int]);
    assert(!fails(permitted, cell_of, stm_white[k], mated[k], succ[k]@));
    lemma_legal_moves_ok(setup, position_answers(sqs), stm);
    lemma_legal_moves_never_blocks(setup, position_answers(sqs), stm);
    lemma_in_check_never_blocks(setup, position_answers(sqs), stm);
    let ms = legal_moves_spec(setup, position_answers(sqs), stm)->Ok_0;
    let next = succ[k]@;
    assert(next.len() == ms.len());
    assert forall|m: int| 0 <= m < ms.len() && #[trigger] stays(permitted, cell_of, next[m]) implies after_safe(
        setup,
        cert,
        roles,
        sqs,
        stm,
        ms[m],
    ) by {
        let q = play_spec(sqs, ms[m]);
        lemma_played_in_range(setup, sqs, ms[m]);
        lemma_index_of_position(setup, q, flip_spec(stm));
        let j = index_spec(setup, q, flip_spec(stm));
        assert(next[m] == slot_of[j]);
        let s2 = slot_of[j] as int;
        assert(idx[s2] == j);
        assert(recorded(setup, roles, vocab, slot_of, idx[s2] as int, vecs[cell_of[s2] as int]@, stm_white[s2], mated[s2], succ[s2]@));
        lemma_exact_at(setup, cert, roles, vocab, tree, q, flip_spec(stm), vecs[cell_of[s2] as int]@);
    }
    assert(legal_moves_spec(setup, position_answers(sqs), stm) == Ok::<Seq<crate::board::Move>, Blocked>(ms));
    assert(stm_white[k] == (stm == Color::White));
    if stm == Color::White {
        if ms.len() > 0 {
            let t = choose|t: int| 0 <= t < next.len() && #[trigger] stays(permitted, cell_of, next[t]);
            assert(after_safe(setup, cert, roles, sqs, stm, ms[t]));
        } else {
            assert(!mated[k]);
            assert(mated[k] == (ms.len() == 0 && in_check_spec(setup, position_answers(sqs), stm) == Ok::<bool, Blocked>(true)));
            let chk = in_check_spec(setup, position_answers(sqs), stm);
            assert(chk is Ok);
            assert(chk->Ok_0 == false);
            assert(chk == Ok::<bool, Blocked>(false));
        }
    } else {
        assert forall|m: int| 0 <= m < ms.len() implies #[trigger] after_safe(setup, cert, roles, sqs, stm, ms[m]) by {
            assert(stays(permitted, cell_of, next[m]));
        }
    }
}

/// The legal positions of the table in index order, and each index's place
/// in that list (past its end for an illegal one).
pub open spec fn listing(vals: Seq<Val>, idx: Seq<usize>, slot_of: Seq<usize>) -> bool {
    &&& slot_of.len() == vals.len()
    &&& idx.len() <= vals.len()
    &&& forall|k: int|
        0 <= k < idx.len() ==> (#[trigger] idx[k]) < vals.len() && vals[idx[k] as int] != Val::Illegal && slot_of[idx[k] as int] == k
    &&& forall|j: int| 0 <= j < vals.len() ==> ((#[trigger] slot_of[j]) < idx.len() <==> vals[j] != Val::Illegal)
    &&& forall|j: int| 0 <= j < vals.len() && (#[trigger] slot_of[j]) < idx.len() ==> idx[slot_of[j] as int] == j
}

/// List the legal positions of the table.
fn list_legal(vals: &Vec<Val>) -> (res: (Vec<usize>, Vec<usize>))
    ensures
        listing(vals@, res.0@, res.1@),
{
    let nv = vals.len();
    let mut idx: Vec<usize> = Vec::new();
    let mut slot_of: Vec<usize> = Vec::new();
    let mut i: usize = 0;
    while i < nv
        invariant
            nv == vals.len(),
            0 <= i <= nv,
            slot_of.len() == i,
            idx.len() <= i,
            forall|k: int|
                0 <= k < idx.len() ==> (#[trigger] idx@[k]) < i && vals@[idx@[k] as int] != Val::Illegal && slot_of@[idx@[k] as int] == k,
            forall|j: int| 0 <= j < i ==> ((#[trigger] slot_of@[j]) < idx.len() <==> vals@[j] != Val::Illegal),
            forall|j: int| 0 <= j < i && (#[trigger] slot_of@[j]) < idx.len() ==> idx@[slot_of@[j] as int] == j,
            forall|j: int| 0 <= j < i && vals@[j] == Val::Illegal ==> #[trigger] slot_of@[j] == usize::MAX,
        decreases nv - i,
    {
        let ghost idx0 = idx@;
        let ghost slot0 = slot_of@;
        if vals[i] != Val::Illegal {
            slot_of.push(idx.len());
            idx.push(i);
            proof {
                assert forall|k: int|
                    0 <= k < idx.len() implies (#[trigger] idx@[k]) < i + 1 && vals@[idx@[k] as int] != Val::Illegal && slot_of@[idx@[k] as int] == k by {
                    if k < idx0.len() {
                        assert(idx@[k] == idx0[k]);
                        assert(slot_of@[idx0[k] as int] == slot0[idx0[k] as int]);
                    }
                }
                assert forall|j: int| 0 <= j < i + 1 && (#[trigger] slot_of@[j]) < idx.len() implies idx@[slot_of@[j] as int] == j by {
                    if j < i {
                        assert(slot_of@[j] == slot0[j]);
                        if slot0[j] < idx0.len() {
                            assert(idx@[slot0[j] as int] == idx0[slot0[j] as int]);
                        } else {
                            assert(vals@[j] == Val::Illegal);
                        }
                    } else {
                        assert(idx@[idx0.len() as int] == i);
                    }
                }
                assert forall|j: int| 0 <= j < i + 1 && vals@[j] == Val::Illegal implies #[trigger] slot_of@[j] == usize::MAX by {
                    if j < i {
                        assert(slot_of@[j] == slot0[j]);
                    }
                }
                assert forall|j: int| 0 <= j < i + 1 implies ((#[trigger] slot_of@[j]) < idx.len() <==> vals@[j] != Val::Illegal) by {
                    if j < i {
                        assert(slot_of@[j] == slot0[j]);
                        if slot0[j] == idx0.len() {
                            assert(slot0[j] < idx0.len() <==> vals@[j] != Val::Illegal);
                        }
                    }
                }
            }
        } else {
            slot_of.push(usize::MAX);
            proof {
                assert forall|k: int|
                    0 <= k < idx.len() implies (#[trigger] idx@[k]) < i + 1 && vals@[idx@[k] as int] != Val::Illegal && slot_of@[idx@[k] as int] == k by {
                    assert(slot_of@[idx@[k] as int] == slot0[idx@[k] as int]);
                }
                assert forall|j: int| 0 <= j < i + 1 && (#[trigger] slot_of@[j]) < idx.len() implies idx@[slot_of@[j] as int] == j by {
                    if j < i {
                        assert(slot_of@[j] == slot0[j]);
                    }
                }
                assert forall|j: int| 0 <= j < i + 1 implies ((#[trigger] slot_of@[j]) < idx.len() <==> vals@[j] != Val::Illegal) by {
                    if j < i {
                        assert(slot_of@[j] == slot0[j]);
                    }
                }
                assert forall|j: int| 0 <= j < i + 1 && vals@[j] == Val::Illegal implies #[trigger] slot_of@[j] == usize::MAX by {
                    if j < i {
                        assert(slot_of@[j] == slot0[j]);
                    }
                }
            }
        }
        i += 1;
    }
    (idx, slot_of)
}

/// The feature vector of a position over the vocabulary.
pub open spec fn vec_of(setup: &Setup, vocab: Seq<usize>, roles: Roles, sqs: Seq<Option<Sq>>, stm: Color) -> Seq<i32> {
    Seq::new(vocab.len(), |j: int| (feature_spec(setup, position_answers(sqs), stm, roles, vocab[j] as int)->Ok_0) as i32)
}

/// The feature vector of index `i` over the vocabulary, White protected.
pub open spec fn vec_at(setup: &Setup, vocab: Seq<usize>, i: int) -> Seq<i32> {
    vec_of(setup, vocab, roles_spec(setup, Color::White), position_sqs(setup, i), position_stm(i))
}

/// Playing `m` at `sqs` leads to a legal position whose vector is in `cs`.
pub open spec fn lands_in(
    setup: &Setup,
    vals: Seq<Val>,
    vocab: Seq<usize>,
    cs: spec_fn(Seq<i32>) -> bool,
    sqs: Seq<Option<Sq>>,
    stm: Color,
    m: crate::board::Move,
) -> bool {
    let j = index_spec(setup, play_spec(sqs, m), flip_spec(stm));
    vals[j] != Val::Illegal && cs(vec_at(setup, vocab, j))
}

/// Position `i` meets White's obligation among the positions whose vectors
/// are in `cs`: White to move has a move into them (or, with no move, is not
/// in check); Black to move has only moves into them.
pub open spec fn meets_in(setup: &Setup, vals: Seq<Val>, vocab: Seq<usize>, cs: spec_fn(Seq<i32>) -> bool, i: int) -> bool {
    let sqs = position_sqs(setup, i);
    let stm = position_stm(i);
    match legal_moves_spec(setup, position_answers(sqs), stm) {
        Ok(ms) => if stm == Color::White {
            if ms.len() == 0 {
                in_check_spec(setup, position_answers(sqs), stm) == Ok::<bool, Blocked>(false)
            } else {
                exists|k: int| 0 <= k < ms.len() && #[trigger] lands_in(setup, vals, vocab, cs, sqs, stm, ms[k])
            }
        } else {
            forall|k: int| 0 <= k < ms.len() ==> #[trigger] lands_in(setup, vals, vocab, cs, sqs, stm, ms[k])
        },
        Err(_) => false,
    }
}

/// A set of feature vectors closed under the obligation: every legal
/// position whose vector is in it meets its obligation within it.
pub open spec fn cells_closed(setup: &Setup, vals: Seq<Val>, vocab: Seq<usize>, cs: spec_fn(Seq<i32>) -> bool) -> bool {
    forall|i: int|
        0 <= i < vals.len() && vals[i] != Val::Illegal && #[trigger] cs(vec_at(setup, vocab, i)) ==> meets_in(
            setup,
            vals,
            vocab,
            cs,
            i,
        )
}

/// The feature vectors of the legal positions.
pub open spec fn legal_vecs(setup: &Setup, vals: Seq<Val>, vocab: Seq<usize>) -> Set<Seq<i32>> {
    Set::new(|v: Seq<i32>| exists|i: int| 0 <= i < vals.len() && vals[i] != Val::Illegal && #[trigger] vec_at(setup, vocab, i) == v)
}

/// The feature vectors of the legal positions the certificate holds.
pub open spec fn held_vecs(setup: &Setup, cert: &Cert, vals: Seq<Val>, vocab: Seq<usize>) -> Set<Seq<i32>> {
    Set::new(
        |v: Seq<i32>|
            exists|i: int|
                0 <= i < vals.len() && vals[i] != Val::Illegal && safe_spec(
                    setup,
                    cert,
                    position_sqs(setup, i),
                    position_stm(i),
                    roles_spec(setup, Color::White),
                ) && #[trigger] vec_at(setup, vocab, i) == v,
    )
}

/// The vectors of the cells before `k` that `b` marks.
pub open spec fn vecs_where(vs: Seq<Vec<i32>>, b: Seq<bool>, k: int) -> Set<Seq<i32>> {
    Set::new(|v: Seq<i32>| exists|c: int| 0 <= c < k && b[c] && #[trigger] vs[c]@ == v)
}

/// Distinct vectors: the marked ones number as many as the marks.
proof fn lemma_vecs_where(vs: Seq<Vec<i32>>, b: Seq<bool>, k: int)
    requires
        0 <= k <= vs.len(),
        b.len() == vs.len(),
        forall|c1: int, c2: int| 0 <= c1 < c2 < vs.len() ==> (#[trigger] vs[c1])@ != (#[trigger] vs[c2])@,
    ensures
        vecs_where(vs, b, k).finite(),
        vecs_where(vs, b, k).len() == count_true(b, k),
    decreases k,
{
    if k == 0 {
        assert(vecs_where(vs, b, k) =~= Set::<Seq<i32>>::empty());
    } else {
        lemma_vecs_where(vs, b, k - 1);
        let prev = vecs_where(vs, b, k - 1);
        if b[k - 1] {
            assert(vecs_where(vs, b, k) =~= prev.insert(vs[k - 1]@)) by {
                assert forall|v: Seq<i32>| prev.insert(vs[k - 1]@).contains(v) implies vecs_where(vs, b, k).contains(v) by {
                    if v == vs[k - 1]@ {
                        assert(vs[k - 1]@ == v);
                    } else {
                        let c = choose|c: int| 0 <= c < k - 1 && b[c] && #[trigger] vs[c]@ == v;
                        assert(vs[c]@ == v);
                    }
                }
            }
            assert(!prev.contains(vs[k - 1]@));
        } else {
            assert(vecs_where(vs, b, k) =~= prev) by {
                assert forall|v: Seq<i32>| vecs_where(vs, b, k).contains(v) implies prev.contains(v) by {
                    let c = choose|c: int| 0 <= c < k && b[c] && #[trigger] vs[c]@ == v;
                    assert(vs[c]@ == v);
                }
            }
        }
    }
}

/// All marks counted.
proof fn lemma_count_all(s: Seq<bool>, k: int)
    requires
        0 <= k <= s.len(),
        forall|c: int| 0 <= c < s.len() ==> #[trigger] s[c],
    ensures
        count_true(s, k) == k,
    decreases k,
{
    if k > 0 {
        lemma_count_all(s, k - 1);
    }
}

/// A vector that describes a position is its vector.
proof fn lemma_describes_of(setup: &Setup, vocab: Seq<usize>, roles: Roles, sqs: Seq<Option<Sq>>, stm: Color, v: Seq<i32>)
    requires
        describes(setup, sqs, stm, roles, vocab, v),
    ensures
        v == vec_of(setup, vocab, roles, sqs, stm),
{
    assert forall|j: int| 0 <= j < v.len() implies v[j] == #[trigger] vec_of(setup, vocab, roles, sqs, stm)[j] by {
        assert(feature_spec(setup, position_answers(sqs), stm, roles, vocab[j] as int) == Ok::<int, Blocked>(v[j] as int));
    }
    assert(v =~= vec_of(setup, vocab, roles, sqs, stm));
}

/// A vector that describes index `i` is its vector.
proof fn lemma_describes_vec(setup: &Setup, vocab: Seq<usize>, i: int, v: Seq<i32>)
    requires
        describes(setup, position_sqs(setup, i), position_stm(i), roles_spec(setup, Color::White), vocab, v),
    ensures
        v == vec_at(setup, vocab, i),
{
    lemma_describes_of(setup, vocab, roles_spec(setup, Color::White), position_sqs(setup, i), position_stm(i), v);
}

/// Every set of vectors closed under the obligation lies among the
/// permitted cells, when the permitted cells include every closed set of
/// cells.
proof fn lemma_greatest(
    setup: &Setup,
    cert: &Cert,
    roles: Roles,
    vocab: Seq<usize>,
    vals: Seq<Val>,
    idx: Seq<usize>,
    slot_of: Seq<usize>,
    vecs: Seq<Vec<i32>>,
    cell_of: Seq<usize>,
    stm_white: Seq<bool>,
    mated: Seq<bool>,
    succ: Seq<Vec<usize>>,
    permitted: Seq<bool>,
    cs: spec_fn(Seq<i32>) -> bool,
)
    requires
        setup.wf(),
        roles == roles_spec(setup, Color::White),
        vals.len() == size_spec(setup),
        listing(vals, idx, slot_of),
        cell_of.len() == idx.len(),
        stm_white.len() == idx.len(),
        mated.len() == idx.len(),
        succ.len() == idx.len(),
        permitted.len() == vecs.len(),
        forall|k: int| 0 <= k < idx.len() ==> (#[trigger] cell_of[k]) < vecs.len(),
        forall|k: int|
            0 <= k < idx.len() ==> #[trigger] recorded(
                setup,
                roles,
                vocab,
                slot_of,
                idx[k] as int,
                vecs[cell_of[k] as int]@,
                stm_white[k],
                mated[k],
                succ[k]@,
            ),
        forall|t: Seq<bool>|
            t.len() == vecs.len() && #[trigger] closed(t, cell_of, stm_white, mated, succ) ==> within(t, permitted),
        cells_closed(setup, vals, vocab, cs),
    ensures
        forall|i: int|
            0 <= i < vals.len() && vals[i] != Val::Illegal && #[trigger] cs(vec_at(setup, vocab, i)) ==> permitted[cell_of[slot_of[i] as int] as int],
{
    let t = Seq::new(vecs.len(), |c: int| cs(vecs[c]@));
    assert forall|k: int| 0 <= k < cell_of.len() && #[trigger] t[cell_of[k] as int] implies !fails(
        t,
        cell_of,
        stm_white[k],
        mated[k],
        succ[k]@,
    ) by {
        let i = idx[k] as int;
        let sqs = position_sqs(setup, i);
        let stm = position_stm(i);
        assert(recorded(setup, roles, vocab, slot_of, idx[k] as int, vecs[cell_of[k] as int]@, stm_white[k], mated[k], succ[k]@));
        lemma_describes_vec(setup, vocab, i, vecs[cell_of[k] as int]@);
        assert(cs(vec_at(setup, vocab, i)));
        assert(meets_in(setup, vals, vocab, cs, i));
        lemma_position_wf(setup, i);
        lemma_legal_moves_ok(setup, position_answers(sqs), stm);
        lemma_legal_moves_never_blocks(setup, position_answers(sqs), stm);
        lemma_in_check_never_blocks(setup, position_answers(sqs), stm);
        let ms = legal_moves_spec(setup, position_answers(sqs), stm)->Ok_0;
        let next = succ[k]@;
        assert(next.len() == ms.len());
        assert forall|m: int| 0 <= m < ms.len() implies #[trigger] stays(t, cell_of, next[m]) == lands_in(
            setup,
            vals,
            vocab,
            cs,
            sqs,
            stm,
            ms[m],
        ) by {
            let q = play_spec(sqs, ms[m]);
            lemma_played_in_range(setup, sqs, ms[m]);
            lemma_index_of_position(setup, q, flip_spec(stm));
            let j = index_spec(setup, q, flip_spec(stm));
            assert(next[m] == slot_of[j]);
            if vals[j] != Val::Illegal {
                let s2 = slot_of[j] as int;
                assert(idx[s2] == j);
                assert(recorded(setup, roles, vocab, slot_of, idx[s2] as int, vecs[cell_of[s2] as int]@, stm_white[s2], mated[s2], succ[s2]@));
                lemma_describes_vec(setup, vocab, j, vecs[cell_of[s2] as int]@);
            }
        }
        assert(stm_white[k] == (stm == Color::White));
        if stm == Color::White {
            if ms.len() > 0 {
                let x = choose|x: int| 0 <= x < ms.len() && #[trigger] lands_in(setup, vals, vocab, cs, sqs, stm, ms[x]);
                assert(stays(t, cell_of, next[x]));
            } else {
                let chk = in_check_spec(setup, position_answers(sqs), stm);
                assert(chk is Ok);
                assert(!mated[k]);
            }
        } else {
            assert forall|m: int| 0 <= m < next.len() implies #[trigger] stays(t, cell_of, next[m]) by {
                assert(lands_in(setup, vals, vocab, cs, sqs, stm, ms[m]));
            }
        }
    }
    assert(closed(t, cell_of, stm_white, mated, succ));
    assert(within(t, permitted));
    assert forall|i: int|
        0 <= i < vals.len() && vals[i] != Val::Illegal && #[trigger] cs(vec_at(setup, vocab, i)) implies permitted[cell_of[slot_of[i] as int] as int] by {
        let k = slot_of[i] as int;
        assert(idx[k] == i);
        assert(recorded(setup, roles, vocab, slot_of, idx[k] as int, vecs[cell_of[k] as int]@, stm_white[k], mated[k], succ[k]@));
        lemma_describes_vec(setup, vocab, i, vecs[cell_of[k] as int]@);
        assert(t[cell_of[k] as int]);
    }
}

/// The start seen from the other side: the two kings exchange squares, and
/// so do the two rooks.
pub open spec fn mirrored_start(setup: &Setup, roles: Roles) -> Seq<Option<Sq>> {
    let s = start_sqs(setup, roles);
    let s1 = s.update(roles.own_k as int, s[roles.opp_k as int]).update(roles.opp_k as int, s[roles.own_k as int]);
    s1.update(roles.own_r as int, s1[roles.opp_r as int]).update(roles.opp_r as int, s1[roles.own_r as int])
}

/// A root that is a listed position of the table and lies in the region is
/// found in a permitted cell.
proof fn root_converse(
    setup: &Setup,
    cert: &Cert,
    roles: Roles,
    vocab: Seq<usize>,
    vals: Seq<Val>,
    idx: Seq<usize>,
    slot_of: Seq<usize>,
    cell_vec: Seq<Vec<i32>>,
    cell_of: Seq<usize>,
    stm_white: Seq<bool>,
    mated: Seq<bool>,
    succ: Seq<Vec<usize>>,
    permitted: Seq<bool>,
    sqs: Seq<Option<Sq>>,
    stm: Color,
    ok: bool,
)
    requires
        setup.wf(),
        vals.len() == size_spec(setup),
        sqs.len() == setup.slots.len(),
        crate::retro::squares_below(sqs, setup.area_spec()),
        listing(vals, idx, slot_of),
        cell_of.len() == idx.len(),
        stm_white.len() == idx.len(),
        mated.len() == idx.len(),
        succ.len() == idx.len(),
        permitted.len() == cell_vec.len(),
        forall|j: int| 0 <= j < cell_of.len() ==> (#[trigger] cell_of[j]) < cell_vec.len(),
        forall|k: int|
            0 <= k < idx.len() ==> #[trigger] recorded(
                setup,
                roles,
                vocab,
                slot_of,
                idx[k] as int,
                cell_vec[cell_of[k] as int]@,
                stm_white[k],
                mated[k],
                succ[k]@,
            ),
        forall|k: int|
            0 <= k < idx.len() ==> #[trigger] safe_spec(setup, cert, position_sqs(setup, idx[k] as int), position_stm(idx[k] as int), roles)
                == permitted[cell_of[k] as int],
        ok == exists|c: int| 0 <= c < cell_vec.len() && #[trigger] permitted[c] && describes(setup, sqs, stm, roles, vocab, cell_vec[c]@),
    ensures
        vals[index_spec(setup, sqs, stm)] != Val::Illegal && safe_spec(setup, cert, sqs, stm, roles) ==> ok,
{
    let si = index_spec(setup, sqs, stm);
    lemma_index_of_position(setup, sqs, stm);
    if vals[si] != Val::Illegal && safe_spec(setup, cert, sqs, stm, roles) {
        let k = slot_of[si] as int;
        assert(idx[k] == si);
        assert(recorded(setup, roles, vocab, slot_of, idx[k] as int, cell_vec[cell_of[k] as int]@, stm_white[k], mated[k], succ[k]@));
        assert(safe_spec(setup, cert, position_sqs(setup, idx[k] as int), position_stm(idx[k] as int), roles) == permitted[cell_of[k] as int]);
        assert(permitted[cell_of[k] as int]);
        assert(describes(setup, sqs, stm, roles, vocab, cell_vec[cell_of[k] as int]@));
    }
}

/// Synthesize a certificate for White from the table, over the vocabulary.
#[verifier::rlimit(50)]
pub fn synthesize(table: &Table, vocab: &Vec<usize>) -> (out: Synthesis)
    requires
        table.setup.wf(),
        one_rook(table.setup.slots@, Color::White),
        one_rook(table.setup.slots@, Color::Black),
        table.vals.len() == size_spec(&table.setup),
        size_spec(&table.setup) <= MAX_WEIGHT,
        forall|i: int| 0 <= i < vocab.len() ==> #[trigger] vocab@[i] < NFEAT,
    ensures
        out.cert.wf(),
        out.cert.board == table.setup.n,
        out.vocab@ == vocab@,
        out.rounds == out.removed_by_round.len(),
        out.safe_cells <= out.cells,
        sum_of(out.removed_by_round@) == out.cells - out.safe_cells,
        out.cells == legal_vecs(&table.setup, table.vals@, vocab@).len(),
        out.safe_cells == held_vecs(&table.setup, &out.cert, table.vals@, vocab@).len(),
        forall|cs: spec_fn(Seq<i32>) -> bool, i: int|
            #![trigger cells_closed(&table.setup, table.vals@, vocab@, cs), cs(vec_at(&table.setup, vocab@, i))]
            cells_closed(&table.setup, table.vals@, vocab@, cs) && 0 <= i < table.vals.len() && table.vals@[i] != Val::Illegal
                && cs(vec_at(&table.setup, vocab@, i)) ==> safe_spec(
                &table.setup,
                &out.cert,
                position_sqs(&table.setup, i),
                position_stm(i),
                roles_spec(&table.setup, Color::White),
            ),
        forall|j: int| 0 <= j < out.cert.nodes.len() ==> vocab@.contains(#[trigger] out.cert.nodes@[j]@[0] as usize),
        forall|i: int|
            0 <= i < table.vals.len() && table.vals@[i] != Val::Illegal && #[trigger] safe_spec(
                &table.setup,
                &out.cert,
                position_sqs(&table.setup, i),
                position_stm(i),
                roles_spec(&table.setup, Color::White),
            ) ==> obligation_spec(&table.setup, &out.cert, roles_spec(&table.setup, Color::White), position_sqs(&table.setup, i), position_stm(i)),
        out.safe_states == count_upto(table.vals.len() as int, held(&table.setup, &out.cert, table.vals@)),
        out.roots_ok[0] ==> safe_spec(
            &table.setup,
            &out.cert,
            start_sqs(&table.setup, roles_spec(&table.setup, Color::White)),
            Color::White,
            roles_spec(&table.setup, Color::White),
        ),
        out.roots_ok[0] == held_vecs(&table.setup, &out.cert, table.vals@, vocab@).contains(
            vec_of(&table.setup, vocab@, roles_spec(&table.setup, Color::White), start_sqs(&table.setup, roles_spec(&table.setup, Color::White)), Color::White),
        ),
        out.roots_ok[1] == held_vecs(&table.setup, &out.cert, table.vals@, vocab@).contains(
            vec_of(&table.setup, vocab@, roles_spec(&table.setup, Color::White), mirrored_start(&table.setup, roles_spec(&table.setup, Color::White)), Color::Black),
        ),
        table.vals@[index_spec(&table.setup, start_sqs(&table.setup, roles_spec(&table.setup, Color::White)), Color::White)]
            != Val::Illegal ==> (out.roots_ok[0] <==> safe_spec(
            &table.setup,
            &out.cert,
            start_sqs(&table.setup, roles_spec(&table.setup, Color::White)),
            Color::White,
            roles_spec(&table.setup, Color::White),
        )),
        out.roots_ok[1] ==> safe_spec(
            &table.setup,
            &out.cert,
            mirrored_start(&table.setup, roles_spec(&table.setup, Color::White)),
            Color::Black,
            roles_spec(&table.setup, Color::White),
        ),
        table.vals@[index_spec(&table.setup, mirrored_start(&table.setup, roles_spec(&table.setup, Color::White)), Color::Black)]
            != Val::Illegal ==> (out.roots_ok[1] <==> safe_spec(
            &table.setup,
            &out.cert,
            mirrored_start(&table.setup, roles_spec(&table.setup, Color::White)),
            Color::Black,
            roles_spec(&table.setup, Color::White),
        )),
{
    let setup = &table.setup;
    let roles = Roles::new(setup, Color::White);
    let nv = table.vals.len();
    // Legal positions, their cells, and their successors.
    let (idx, slot_of) = list_legal(&table.vals);
    let np = idx.len();
    let mut index = CellIndex::new();
    let mut cell_of: Vec<usize> = Vec::new();
    let mut stm_white: Vec<bool> = Vec::new();
    let mut mated: Vec<bool> = Vec::new();
    let mut succ: Vec<Vec<usize>> = Vec::new();
    let mut k: usize = 0;
    while k < np
        invariant
            setup == &table.setup,
            setup.wf(),
            roles.wf(setup),
            nv == table.vals.len(),
            nv == size_spec(setup),
            size_spec(setup) <= MAX_WEIGHT,
            np == idx.len(),
            np <= nv,
            slot_of.len() == nv,
            forall|j: int| 0 <= j < idx.len() ==> (#[trigger] idx@[j]) < nv,
            forall|i: int| 0 <= i < vocab.len() ==> #[trigger] vocab@[i] < NFEAT,
            0 <= k <= np,
            cell_of.len() == k,
            stm_white.len() == k,
            mated.len() == k,
            succ.len() == k,
            index.wf(),
            index.vecs.len() <= k,
            forall|j: int| 0 <= j < cell_of.len() ==> (#[trigger] cell_of@[j]) < index.vecs.len(),
            forall|j: int| 0 <= j < index.vecs.len() ==> (#[trigger] index.vecs@[j]).len() == vocab.len(),
            forall|c: int| 0 <= c < index.vecs.len() ==> #[trigger] covered(cell_of@, c),
            forall|k2: int|
                0 <= k2 < k ==> #[trigger] recorded(
                    setup,
                    roles,
                    vocab@,
                    slot_of@,
                    idx@[k2] as int,
                    index.vecs@[cell_of@[k2] as int]@,
                    stm_white@[k2],
                    mated@[k2],
                    succ@[k2]@,
                ),
        decreases np - k,
    {
        let i = idx[k];
        let ghost vecs0 = index.vecs@;
        let ghost sw0 = stm_white@;
        let ghost mt0 = mated@;
        let ghost sc0 = succ@;
        proof {
            assert(idx@[k as int] < nv);
            crate::retro::lemma_position_wf(setup, i as int);
        }
        let p = Table::position(setup, i);
        let v = feature_vec(setup, &p, &roles, vocab);
        let ghost vv = v@;
        let ghost cells0 = index.vecs.len();
        let c = match index.find(&v) {
            Some(c) => c,
            None => index.add(v),
        };
        let ghost cell_of0 = cell_of@;
        cell_of.push(c);
        proof {
            assert forall|c2: int| 0 <= c2 < index.vecs.len() implies #[trigger] covered(cell_of@, c2) by {
                if c2 < cells0 {
                    assert(covered(cell_of0, c2));
                    let k2 = choose|k2: int| 0 <= k2 < cell_of0.len() && #[trigger] cell_of0[k2] == c2;
                    assert(cell_of@[k2] == cell_of0[k2]);
                } else {
                    assert(cell_of@[cell_of0.len() as int] == c);
                }
            }
        }
        stm_white.push(p.stm == Color::White);
        proof {
            lemma_position_fits(setup, &p);
            lemma_legal_moves_never_blocks(setup, position_answers(p.sqs@), p.stm);
            lemma_in_check_never_blocks(setup, position_answers(p.sqs@), p.stm);
            lemma_legal_moves_ok(setup, position_answers(p.sqs@), p.stm);
        }
        let moves = match legal_moves(setup, &p, &mut (), p.stm) {
            Ok(m) => m,
            Err(_) => Vec::new(),
        };
        let chk = if moves.len() == 0 {
            match in_check(setup, &p, &mut (), p.stm) {
                Ok(b) => b,
                Err(_) => false,
            }
        } else {
            false
        };
        mated.push(chk);
        let mut next: Vec<usize> = Vec::new();
        let mut m: usize = 0;
        while m < moves.len()
            invariant
                setup.wf(),
                p.wf(setup),
                moves_ok(setup, moves@),
                nv == size_spec(setup),
                size_spec(setup) <= MAX_WEIGHT,
                slot_of.len() == nv,
                0 <= m <= moves.len(),
                next.len() == m,
                forall|t: int|
                    0 <= t < m ==> #[trigger] next@[t] == slot_of@[index_spec(setup, play_spec(p.sqs@, moves@[t]), flip_spec(p.stm))],
            decreases moves.len() - m,
        {
            let q = p.play(moves[m]);
            proof {
                crate::retro::lemma_played_in_range(setup, p.sqs@, moves@[m as int]);
            }
            let j = Table::index(setup, &q);
            next.push(slot_of[j]);
            m += 1;
        }
        succ.push(next);
        proof {
            assert(index.vecs@[c as int] == index.vecs@[cell_of@[k as int] as int]);
            assert forall|k2: int|
                0 <= k2 < k + 1 implies #[trigger] recorded(
                    setup,
                    roles,
                    vocab@,
                    slot_of@,
                    idx@[k2] as int,
                    index.vecs@[cell_of@[k2] as int]@,
                    stm_white@[k2],
                    mated@[k2],
                    succ@[k2]@,
                ) by {
                if k2 < k {
                    assert(cell_of@[k2] == cell_of0[k2]);
                    assert(index.vecs@[cell_of0[k2] as int] == vecs0[cell_of0[k2] as int]);
                    assert(stm_white@[k2] == sw0[k2]);
                    assert(mated@[k2] == mt0[k2]);
                    assert(succ@[k2] == sc0[k2]);
                } else {
                    assert(idx@[k2] == i);
                    assert(index.vecs@[c as int]@ == vv);
                }
            }
        }
        k += 1;
    }
    let cell_vec = index.vecs;
    let cells = cell_vec.len();
    proof {
        let ones = Seq::new(cells as nat, |c: int| true);
        assert(legal_vecs(setup, table.vals@, vocab@) =~= vecs_where(cell_vec@, ones, cells as int)) by {
            assert forall|v: Seq<i32>| legal_vecs(setup, table.vals@, vocab@).contains(v) implies vecs_where(cell_vec@, ones, cells as int).contains(v) by {
                let i = choose|i: int| 0 <= i < table.vals.len() && table.vals@[i] != Val::Illegal && #[trigger] vec_at(setup, vocab@, i) == v;
                let k = slot_of@[i] as int;
                assert(idx@[k] == i);
                assert(recorded(setup, roles, vocab@, slot_of@, idx@[k] as int, cell_vec@[cell_of@[k] as int]@, stm_white@[k], mated@[k], succ@[k]@));
                lemma_describes_vec(setup, vocab@, i, cell_vec@[cell_of@[k] as int]@);
                assert(cell_vec@[cell_of@[k] as int]@ == v);
            }
            assert forall|v: Seq<i32>| vecs_where(cell_vec@, ones, cells as int).contains(v) implies legal_vecs(setup, table.vals@, vocab@).contains(v) by {
                let c = choose|c: int| 0 <= c < cells && ones[c] && #[trigger] cell_vec@[c]@ == v;
                assert(covered(cell_of@, c));
                let k = choose|k: int| 0 <= k < cell_of.len() && #[trigger] cell_of@[k] == c;
                let i = idx@[k] as int;
                assert(recorded(setup, roles, vocab@, slot_of@, idx@[k] as int, cell_vec@[cell_of@[k] as int]@, stm_white@[k], mated@[k], succ@[k]@));
                lemma_describes_vec(setup, vocab@, i, cell_vec@[c]@);
                assert(vec_at(setup, vocab@, i) == v);
            }
        }
        lemma_vecs_where(cell_vec@, ones, cells as int);
        lemma_count_all(ones, cells as int);
        assert(cells == legal_vecs(setup, table.vals@, vocab@).len());
    }
    // Greatest fixpoint: drop cells with a violating member.
    let (permitted, removed_by_round) = prune(cells, &cell_of, &stm_white, &mated, &succ);
    let mut weight: Vec<usize> = Vec::new();
    let mut c: usize = 0;
    while c < cells
        invariant
            0 <= c <= cells,
            weight.len() == c,
            forall|x: int| 0 <= x < c ==> #[trigger] weight@[x] == 0,
        decreases cells - c,
    {
        weight.push(0);
        c += 1;
    }
    proof {
        assert forall|x: int| 0 <= x <= cells implies wsum(weight@, #[trigger] iota(x)) == 0 by {
            lemma_wsum_zero(weight@, x);
        }
    }
    let mut k: usize = 0;
    while k < np
        invariant
            0 <= k <= np,
            np == cell_of.len(),
            np <= nv,
            nv == size_spec(setup),
            size_spec(setup) <= MAX_WEIGHT,
            weight.len() == cells,
            forall|j: int| 0 <= j < cell_of.len() ==> (#[trigger] cell_of@[j]) < cells,
            forall|x: int| 0 <= x < cells ==> #[trigger] weight@[x] <= k,
            wsum(weight@, iota(cells as int)) == k,
            forall|x: int| 0 <= x < cells && #[trigger] covered(cell_of@.take(k as int), x) ==> weight@[x] > 0,
        decreases np - k,
    {
        let c = cell_of[k];
        let w = weight[c];
        proof {
            lemma_wsum_update(weight@, cells as int, c as int, (w + 1) as usize);
        }
        let ghost w0 = weight@;
        weight.set(c, w + 1);
        proof {
            assert forall|x: int| 0 <= x < cells && #[trigger] covered(cell_of@.take(k + 1), x) implies weight@[x] > 0 by {
                if x != c {
                    let tk = cell_of@.take(k + 1);
                    let k2 = choose|k2: int| 0 <= k2 < tk.len() && #[trigger] tk[k2] == x;
                    assert(k2 != k);
                    assert(cell_of@.take(k as int)[k2] == x);
                    assert(covered(cell_of@.take(k as int), x));
                    assert(w0[x] > 0);
                }
            }
        }
        k += 1;
    }
    proof {
        assert(cell_of@.take(np as int) =~= cell_of@);
        assert forall|x: int| 0 <= x < cells implies weight@[x] > 0 by {
            assert(covered(cell_of@, x));
        }
    }
    // Roots: the start seen from White, and the start seen from Black
    // (= its colour-swapped image with Black to move), both white-relative.
    let start_p = start(setup);
    let mut sqs = start_p.sqs.clone();
    proof {
        assert(sqs@ =~= start_p.sqs@);
    }
    swap_entries(&mut sqs, roles.own_k as usize, roles.opp_k as usize);
    swap_entries(&mut sqs, roles.own_r as usize, roles.opp_r as usize);
    let swapped = Position { sqs, stm: Color::Black };
    proof {
        assert forall|j: int| 0 <= j < swapped.sqs.len() implies ((#[trigger] swapped.sqs@[j]) matches Some(q) ==> q < setup.area_spec()) by {
            assert(swapped.sqs@[j] == start_p.sqs@[j] || swapped.sqs@[j] == start_p.sqs@[roles.own_k as int] || swapped.sqs@[j] == start_p.sqs@[roles.opp_k as int]
                || swapped.sqs@[j] == start_p.sqs@[roles.own_r as int] || swapped.sqs@[j] == start_p.sqs@[roles.opp_r as int]);
        }
    }
    let index = CellIndex { vecs: cell_vec, buckets: index.buckets };
    let w_ok = root_ok(setup, &start_p, &roles, vocab, &index, &permitted);
    let b_ok = root_ok(setup, &swapped, &roles, vocab, &index, &permitted);
    let cell_vec = index.vecs;
    // Exact tree over the cells, then a DAG.
    let mut tree_nodes: usize = 0;
    let mut rows: Vec<usize> = Vec::new();
    let mut c: usize = 0;
    while c < cells
        invariant
            0 <= c <= cells,
            rows@ == iota(c as int),
        decreases cells - c,
    {
        rows.push(c);
        c += 1;
        proof {
            assert(rows@ =~= iota(c as int));
        }
    }
    let ghost rows_v = rows@;
    let tree = fit(&cell_vec, &permitted, &weight, rows, vocab.len(), &mut tree_nodes);
    proof {
        assert forall|c: int| 0 <= c < cell_vec.len() implies tree_eval(tree, (#[trigger] cell_vec@[c])@) == permitted@[c] by {
            assert(rows_v[c] == c);
        }
    }
    let mut nodes: Vec<[i32; 4]> = Vec::new();
    proof {
        assert(cells <= np <= nv);
    }
    let root = cons(&tree, vocab, &mut nodes);
    let mut safe_cells: usize = 0;
    let mut c: usize = 0;
    while c < cells
        invariant
            0 <= c <= cells,
            permitted.len() == cells,
            safe_cells <= c,
            safe_cells == count_true(permitted@, c as int),
        decreases cells - c,
    {
        if permitted[c] {
            safe_cells += 1;
        }
        c += 1;
    }
    let vocab_copy = vocab.clone();
    proof {
        assert(vocab_copy@ =~= vocab@);
    }
    let rounds = removed_by_round.len();
    let cert = Cert { board: setup.n, root, nodes };
    proof {
        assert forall|i: int|
            0 <= i < table.vals.len() && table.vals@[i] != Val::Illegal && #[trigger] safe_spec(
                &table.setup,
                &cert,
                position_sqs(&table.setup, i),
                position_stm(i),
                roles_spec(&table.setup, Color::White),
            ) implies obligation_spec(&table.setup, &cert, roles_spec(&table.setup, Color::White), position_sqs(&table.setup, i), position_stm(i)) by {
            lemma_inductive(
                setup,
                &cert,
                roles,
                vocab@,
                table.vals@,
                idx@,
                slot_of@,
                cell_vec@,
                cell_of@,
                stm_white@,
                mated@,
                succ@,
                permitted@,
                tree,
                i,
            );
        }
        if w_ok {
            let c = choose|c: int| 0 <= c < cell_vec.len() && #[trigger] permitted@[c] && describes(setup, start_p.sqs@, start_p.stm, roles, vocab@, cell_vec@[c]@);
            lemma_exact_at(setup, &cert, roles, vocab@, tree, start_p.sqs@, start_p.stm, cell_vec@[c]@);
            assert(tree_eval(tree, cell_vec@[c]@) == permitted@[c]);
        }
        if b_ok {
            let c = choose|c: int| 0 <= c < cell_vec.len() && #[trigger] permitted@[c] && describes(setup, swapped.sqs@, swapped.stm, roles, vocab@, cell_vec@[c]@);
            lemma_exact_at(setup, &cert, roles, vocab@, tree, swapped.sqs@, swapped.stm, cell_vec@[c]@);
            assert(tree_eval(tree, cell_vec@[c]@) == permitted@[c]);
        }
        assert forall|k: int| 0 <= k < np implies #[trigger] safe_spec(
            setup,
            &cert,
            position_sqs(setup, idx@[k] as int),
            position_stm(idx@[k] as int),
            roles,
        ) == permitted@[cell_of@[k] as int] by {
            assert(recorded(
                setup,
                roles,
                vocab@,
                slot_of@,
                idx@[k] as int,
                cell_vec@[cell_of@[k] as int]@,
                stm_white@[k],
                mated@[k],
                succ@[k]@,
            ));
            lemma_exact_at(setup, &cert, roles, vocab@, tree, position_sqs(setup, idx@[k] as int), position_stm(idx@[k] as int), cell_vec@[cell_of@[k] as int]@);
            assert(tree_eval(tree, cell_vec@[cell_of@[k] as int]@) == permitted@[cell_of@[k] as int]);
        }
    }
    proof {
        assert forall|cs: spec_fn(Seq<i32>) -> bool, i: int|
            #![trigger cells_closed(setup, table.vals@, vocab@, cs), cs(vec_at(setup, vocab@, i))]
            cells_closed(setup, table.vals@, vocab@, cs) && 0 <= i < table.vals.len() && table.vals@[i] != Val::Illegal && cs(
                vec_at(setup, vocab@, i),
            ) implies safe_spec(setup, &cert, position_sqs(setup, i), position_stm(i), roles) by {
            lemma_greatest(setup, &cert, roles, vocab@, table.vals@, idx@, slot_of@, cell_vec@, cell_of@, stm_white@, mated@, succ@, permitted@, cs);
            let k = slot_of@[i] as int;
            assert(idx@[k] == i);
            assert(safe_spec(setup, &cert, position_sqs(setup, idx@[k] as int), position_stm(idx@[k] as int), roles) == permitted@[cell_of@[k] as int]);
        }
        assert(held_vecs(setup, &cert, table.vals@, vocab@) =~= vecs_where(cell_vec@, permitted@, cells as int)) by {
            assert forall|v: Seq<i32>| held_vecs(setup, &cert, table.vals@, vocab@).contains(v) implies vecs_where(cell_vec@, permitted@, cells as int).contains(v) by {
                let i = choose|i: int|
                    0 <= i < table.vals.len() && table.vals@[i] != Val::Illegal && safe_spec(setup, &cert, position_sqs(setup, i), position_stm(i), roles_spec(setup, Color::White))
                        && #[trigger] vec_at(setup, vocab@, i) == v;
                let k = slot_of@[i] as int;
                assert(idx@[k] == i);
                assert(recorded(setup, roles, vocab@, slot_of@, idx@[k] as int, cell_vec@[cell_of@[k] as int]@, stm_white@[k], mated@[k], succ@[k]@));
                lemma_describes_vec(setup, vocab@, i, cell_vec@[cell_of@[k] as int]@);
                assert(safe_spec(setup, &cert, position_sqs(setup, idx@[k] as int), position_stm(idx@[k] as int), roles) == permitted@[cell_of@[k] as int]);
                assert(cell_vec@[cell_of@[k] as int]@ == v);
            }
            assert forall|v: Seq<i32>| vecs_where(cell_vec@, permitted@, cells as int).contains(v) implies held_vecs(setup, &cert, table.vals@, vocab@).contains(v) by {
                let c = choose|c: int| 0 <= c < cells && permitted@[c] && #[trigger] cell_vec@[c]@ == v;
                assert(covered(cell_of@, c));
                let k = choose|k: int| 0 <= k < cell_of.len() && #[trigger] cell_of@[k] == c;
                let i = idx@[k] as int;
                assert(recorded(setup, roles, vocab@, slot_of@, idx@[k] as int, cell_vec@[cell_of@[k] as int]@, stm_white@[k], mated@[k], succ@[k]@));
                lemma_describes_vec(setup, vocab@, i, cell_vec@[c]@);
                assert(safe_spec(setup, &cert, position_sqs(setup, idx@[k] as int), position_stm(idx@[k] as int), roles) == permitted@[cell_of@[k] as int]);
                assert(vec_at(setup, vocab@, i) == v);
            }
        }
        lemma_vecs_where(cell_vec@, permitted@, cells as int);
        root_converse(setup, &cert, roles, vocab@, table.vals@, idx@, slot_of@, cell_vec@, cell_of@, stm_white@, mated@, succ@, permitted@, start_p.sqs@, Color::White, w_ok);
        root_converse(setup, &cert, roles, vocab@, table.vals@, idx@, slot_of@, cell_vec@, cell_of@, stm_white@, mated@, succ@, permitted@, swapped.sqs@, Color::Black, b_ok);
    }
    // The legal positions whose cell is permitted.
    let mut safe_states: usize = 0;
    let mut i: usize = 0;
    while i < nv
        invariant
            0 <= i <= nv,
            nv == table.vals.len(),
            setup == &table.setup,
            roles == roles_spec(setup, Color::White),
            listing(table.vals@, idx@, slot_of@),
            np == idx.len(),
            np == cell_of.len(),
            permitted.len() == cells,
            forall|j: int| 0 <= j < cell_of.len() ==> (#[trigger] cell_of@[j]) < cells,
            forall|k: int|
                0 <= k < np ==> #[trigger] safe_spec(setup, &cert, position_sqs(setup, idx@[k] as int), position_stm(idx@[k] as int), roles)
                    == permitted@[cell_of@[k] as int],
            safe_states == count_upto(i as int, held(setup, &cert, table.vals@)),
            safe_states <= i,
        decreases nv - i,
    {
        let k = slot_of[i];
        proof {
            if k < np {
                assert(idx@[k as int] == i);
                assert(safe_spec(setup, &cert, position_sqs(setup, idx@[k as int] as int), position_stm(idx@[k as int] as int), roles)
                    == permitted@[cell_of@[k as int] as int]);
            }
            assert(held(setup, &cert, table.vals@)(i as int) == (k < np && permitted@[cell_of@[k as int] as int]));
        }
        if k < np && permitted[cell_of[k]] {
            safe_states += 1;
        }
        i += 1;
    }
    Synthesis {
        vocab: vocab_copy,
        cells,
        rounds,
        removed_by_round,
        safe_cells,
        safe_states,
        roots_ok: [w_ok, b_ok],
        tree_nodes,
        cert,
    }
}

proof fn lemma_wsum_zero(w: Seq<usize>, k: int)
    requires
        0 <= k <= w.len() <= usize::MAX,
        forall|x: int| 0 <= x < w.len() ==> #[trigger] w[x] == 0,
    ensures
        wsum(w, iota(k)) == 0,
    decreases k,
{
    if k > 0 {
        assert(iota(k).drop_last() =~= iota(k - 1));
        lemma_wsum_zero(w, k - 1);
    }
}

/// Exchange two entries.
fn swap_entries(v: &mut Vec<Option<Sq>>, a: usize, b: usize)
    requires
        a < old(v).len(),
        b < old(v).len(),
    ensures
        final(v)@ == old(v)@.update(a as int, old(v)@[b as int]).update(b as int, old(v)@[a as int]),
{
    let x = v[a];
    let y = v[b];
    v.set(a, y);
    v.set(b, x);
}

/// The position's cell exists and is permitted.
fn root_ok(setup: &Setup, p: &Position, roles: &Roles, vocab: &Vec<usize>, index: &CellIndex, permitted: &Vec<bool>) -> (b: bool)
    requires
        setup.wf(),
        roles.wf(setup),
        p.wf(setup),
        forall|i: int| 0 <= i < vocab.len() ==> #[trigger] vocab@[i] < NFEAT,
        permitted.len() == index.vecs.len(),
        index.wf(),
    ensures
        b == exists|c: int| 0 <= c < index.vecs.len() && #[trigger] permitted@[c] && describes(setup, p.sqs@, p.stm, *roles, vocab@, index.vecs@[c]@),
        b == exists|c: int| 0 <= c < index.vecs.len() && #[trigger] permitted@[c] && index.vecs@[c]@ == vec_of(setup, vocab@, *roles, p.sqs@, p.stm),
{
    let v = feature_vec(setup, p, roles, vocab);
    proof {
        assert(describes(setup, p.sqs@, p.stm, *roles, vocab@, v@));
        lemma_describes_of(setup, vocab@, *roles, p.sqs@, p.stm, v@);
        assert forall|c: int| 0 <= c < index.vecs.len() && index.vecs@[c]@ == v@ implies describes(setup, p.sqs@, p.stm, *roles, vocab@, #[trigger] index.vecs@[c]@) by {}
        assert forall|c: int| 0 <= c < index.vecs.len() && describes(setup, p.sqs@, p.stm, *roles, vocab@, #[trigger] index.vecs@[c]@) implies index.vecs@[c]@ == v@ by {
            assert forall|i: int| 0 <= i < v.len() implies index.vecs@[c]@[i] == v@[i] by {
                assert(feature_spec(setup, position_answers(p.sqs@), p.stm, *roles, vocab@[i] as int) == Ok::<int, Blocked>(index.vecs@[c]@[i] as int));
            }
            assert(index.vecs@[c]@ =~= v@);
        }
    }
    match index.find(&v) {
        Some(c) => {
            proof {
                assert forall|c2: int| 0 <= c2 < index.vecs.len() && #[trigger] permitted@[c2] && describes(setup, p.sqs@, p.stm, *roles, vocab@, index.vecs@[c2]@) implies c2 == c by {
                    assert(index.vecs@[c2]@ == v@);
                    if c2 < c {
                        assert(index.vecs@[c2]@ != index.vecs@[c as int]@);
                    } else if c2 > c {
                        assert(index.vecs@[c as int]@ != index.vecs@[c2]@);
                    }
                }
            }
            permitted[c]
        },
        None => false,
    }
}

/// The vector holds the features of the vocabulary on the position, in
/// order.
pub open spec fn describes(setup: &Setup, sqs: Seq<Option<Sq>>, stm: Color, roles: Roles, vocab: Seq<usize>, v: Seq<i32>) -> bool {
    &&& v.len() == vocab.len()
    &&& forall|i: int|
        0 <= i < vocab.len() ==> feature_spec(setup, position_answers(sqs), stm, roles, vocab[i] as int) == Ok::<
            int,
            Blocked,
        >(#[trigger] v[i] as int)
}

} // verus!
