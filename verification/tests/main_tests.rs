use chess_search::board::{legal_moves, Color, Position, Setup};
use chess_search::narrow::{narrow_report, Engine, Region};
use chess_search::retro::{Table, Val};

#[test]
fn krk_4x4_solves_and_verifies() {
    let setup = Setup::parse(4, "KRvK").unwrap();
    let table = Table::solve(setup);
    table.verify().unwrap();
    let st = table.stats();
    assert!(st.legal > 0);
    assert!(st.wins[0] > 0, "white should have some wins");
}

#[test]
fn narrowing_agrees_with_table_krk_4x4() {
    let setup = Setup::parse(4, "KRvK").unwrap();
    let table = Table::solve(setup.clone());
    let dmax = table.stats().max_dtm;
    let mut eng = Engine::new(setup.clone());
    let mut leaves = Vec::new();
    for stm in [Color::White, Color::Black] {
        leaves.extend(eng.solve(Region::root(&setup, stm), dmax));
    }
    let rep = narrow_report(&table, &leaves, false);
    assert_eq!(rep.error, None);
}

#[test]
fn back_rank_mate_is_loss_zero() {
    // Black king a4 (square 12), white king b2 (square 5), white rook d4
    // (square 15) giving check along rank 4; every escape is covered.
    let setup = Setup::parse(4, "KRvK").unwrap();
    let p = Position { sqs: vec![Some(5), Some(15), Some(12)], stm: Color::Black };
    assert!(p.is_legal(&setup));
    assert!(legal_moves(&setup, &p, &mut (), Color::Black).unwrap().is_empty());
    let table = Table::solve(setup);
    assert_eq!(table.get(&p), Val::Loss(0));
}

#[test]
fn setup_name_parses_back() {
    for spec in ["KRvK", "KQvKR", "KRNvKB"] {
        let setup = Setup::parse(5, spec).unwrap();
        let name = setup.name();
        assert_eq!(name, spec);
        let again = Setup::parse(5, &name).unwrap();
        assert_eq!(again.slots, setup.slots);
        assert_eq!(again.n, 5);
    }
}

#[test]
fn square_names_on_wide_boards() {
    let setup = Setup::parse(4, "KvK").unwrap();
    assert_eq!(setup.sq_name(0), "a1");
    assert_eq!(setup.sq_name(15), "d4");
    let wide = Setup { n: 10, slots: setup.slots.clone() };
    assert_eq!(wide.sq_name(99), "j10");
    assert_eq!(wide.sq_name(10), "a2");
}

#[test]
fn solved_table_values_have_parity() {
    let setup = Setup::parse(4, "KRvK").unwrap();
    let table = Table::solve(setup);
    for v in table.vals.iter() {
        match *v {
            Val::Win(d) => assert_eq!(d % 2, 1),
            Val::Loss(d) => assert_eq!(d % 2, 0),
            _ => {}
        }
    }
}
