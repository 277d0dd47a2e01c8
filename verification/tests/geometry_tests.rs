use chess_search::absmove::between_mask;
use chess_search::board::Setup;

#[test]
fn between_mask_on_a_rank() {
    let setup = Setup::parse(4, "KRvK").unwrap();
    // a1 (0) to d1 (3): b1 and c1.
    assert_eq!(between_mask(&setup, 0, 3), (1 << 1) | (1 << 2));
    assert_eq!(between_mask(&setup, 3, 0), (1 << 1) | (1 << 2));
}

#[test]
fn between_mask_on_a_file() {
    let setup = Setup::parse(4, "KRvK").unwrap();
    // b1 (1) to b4 (13): b2 and b3.
    assert_eq!(between_mask(&setup, 1, 13), (1 << 5) | (1 << 9));
}

#[test]
fn between_mask_on_diagonals() {
    let setup = Setup::parse(4, "KRvK").unwrap();
    // a1 (0) to d4 (15): b2 and c3.
    assert_eq!(between_mask(&setup, 0, 15), (1 << 5) | (1 << 10));
    // d1 (3) to a4 (12): c2 and b3.
    assert_eq!(between_mask(&setup, 3, 12), (1 << 6) | (1 << 9));
    assert_eq!(between_mask(&setup, 12, 3), (1 << 6) | (1 << 9));
}

#[test]
fn between_mask_of_neighbours_and_one_square_is_empty() {
    let setup = Setup::parse(4, "KRvK").unwrap();
    assert_eq!(between_mask(&setup, 5, 5), 0);
    assert_eq!(between_mask(&setup, 5, 10), 0);
    assert_eq!(between_mask(&setup, 5, 6), 0);
}
