use chess_search::board::{Color, Setup};
use chess_search::cert;
use chess_search::retro::Table;
use chess_search::symcert;
use chess_search::synth;

/// Synthesis control: the full vocabulary must reproduce the published
/// fixpoint (5,220 cells, 31,716 safe states); the geometric vocabulary must
/// still yield an inductive certificate, and its symbolic check must be exact.
#[test]
fn synthesis_reproduces_fixpoint_and_geo_certificate_is_inductive() {
    let setup = Setup::parse(4, "KRvKR").unwrap();
    let table = Table::solve(setup);
    let full = synth::synthesize(&table, &synth::full_vocab());
    assert_eq!((full.cells, full.safe_states, full.roots_ok), (5220, 31716, [true, true]));
    let geo = synth::synthesize(&table, &synth::geo_vocab());
    assert_eq!((geo.safe_states, geo.roots_ok), (31700, [true, true]));
    for protected in [Color::White, Color::Black] {
        let r = cert::verify(&table, &geo.cert, protected);
        assert!(r.root_in_invariant);
        assert_eq!((r.violations(), r.unsound_vs_table), (0, 0));
        let s = symcert::verify(&table, &geo.cert, protected);
        assert_eq!((s.cover_errors, s.mismatches, s.violating_positions), (0, 0, 0));
        // Membership is settled position by position (one leaf each), so
        // `member_leaves` carries no coarseness bound.
        assert_eq!(s.own_positions + s.opp_positions, 31700);
    }
}

#[test]
fn rel_vocab_is_the_anchor_relative_features() {
    let v = synth::rel_vocab();
    let mut want = vec![0, 1, 2, 3, 4];
    want.extend(11..29);
    assert_eq!(v, want);
    assert_eq!(synth::geo_vocab(), (0..29).collect::<Vec<usize>>());
    assert_eq!(synth::full_vocab().len(), 36);
}
