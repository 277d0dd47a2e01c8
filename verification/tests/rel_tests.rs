use chess_search::board::{Color, Position, Setup};
use chess_search::rel::{self, Engine, Geo, Rel};
use chess_search::retro::Table;
use chess_search::symcert;
use chess_search::synth;

#[test]
fn rel_geo_offsets_round_trip() {
    let setup = Setup::parse(4, "KRvKR").unwrap();
    let g = Geo { setup: &setup, n: 4, anchor: 0 };
    assert_eq!(g.w(), 7);
    let o = g.off(1, -2);
    assert_eq!(g.dxy(o), (1, -2));
    assert_eq!(g.dxy(g.zero()), (0, 0));
    assert_eq!(g.dist(o), 2);
    assert!(!g.aligned(o));
    assert!(g.aligned(g.off(0, 3)));
    assert_eq!(g.at(0, g.off(1, 1)), Some(5));
    assert_eq!(g.at(0, g.off(-1, 0)), None);
    assert_eq!(g.off_between(5, 0), g.off(-1, -1));
    assert_eq!(g.diff(g.off(1, 1), g.off(3, 1)), Some(g.off(2, 0)));
    assert_eq!(g.add(g.off(3, 0), g.off(1, 0)), None);
}

#[test]
fn rel_single_position_region() {
    let setup = Setup::parse(4, "KRvKR").unwrap();
    let g = Geo { setup: &setup, n: 4, anchor: 0 };
    let root = Rel::root(&g, Color::White);
    let p = Position { sqs: vec![Some(0), Some(5), Some(15), Some(10)], stm: Color::White };
    assert!(root.contains(&g, &p));
    let q = Position { sqs: vec![Some(0), Some(5), Some(15), Some(10)], stm: Color::Black };
    assert!(!root.contains(&g, &q));
}

#[test]
fn rel_check_of_synthesized_certificate_is_exact() {
    let setup = Setup::parse(4, "KRvKR").unwrap();
    let table = Table::solve(setup);
    let sy = synth::synthesize(&table, &synth::rel_vocab());
    assert_eq!((sy.safe_states, sy.roots_ok), (31676, [true, true]));
    for cover in [false, true] {
        let rep = rel::verify(&table, &sy.cert, Color::White, cover);
        assert_eq!(rep.legal_positions, 42552);
        assert_eq!(rep.safe_positions, 31676);
        assert_eq!(rep.own_positions + rep.opp_positions, 31676);
        assert_eq!((rep.cover_errors, rep.mismatches, rep.obligation_mismatches, rep.violating_positions), (0, 0, 0, 0));
    }
    let s = symcert::verify(&table, &sy.cert, Color::White);
    assert_eq!((s.cover_errors, s.mismatches, s.violating_positions), (0, 0, 0));
    assert_eq!(s.safe_positions, 31676);
}

#[test]
fn rel_explain_matches_the_legal_successors() {
    let setup = Setup::parse(4, "KRvKR").unwrap();
    let table = Table::solve(setup.clone());
    let sy = synth::synthesize(&table, &synth::rel_vocab());
    let eng = Engine::new(&setup, &sy.cert, Color::White);
    for stm in [Color::White, Color::Black] {
        let p = Position { sqs: vec![Some(0), Some(5), Some(15), Some(10)], stm };
        let e = eng.explain(&p);
        assert!(!e.concrete.is_empty());
        assert!(!e.generated.is_empty());
        assert!(e.disagreements.is_empty());
        assert!(e.missing.is_empty());
        for (c, _) in &e.concrete {
            assert_eq!(c.stm, stm.flip());
        }
    }
}
