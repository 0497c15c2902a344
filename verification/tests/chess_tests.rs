use lib::chess::{can_be_saved, find_winner, standard_pieces, within_bounds, Offset, Piece};

fn board(rows: [&str; 8]) -> Vec<char> {
    rows.iter().flat_map(|r| r.chars()).collect()
}

fn offsets(v: &[(i8, i8)]) -> Vec<Offset> {
    v.iter().map(|&(col, row)| Offset { col, row }).collect()
}

fn pairs(v: &Vec<Offset>) -> Vec<(i8, i8)> {
    v.iter().map(|o| (o.col, o.row)).collect()
}

#[test]
fn example_board_white_wins() {
    let b = board([
        "........",
        ".......k",
        "........",
        "........",
        "........",
        "......R.",
        ".K.....R",
        "........",
    ]);
    assert_eq!(find_winner(&b, &standard_pieces()), 'W');
}

#[test]
fn lone_kings_give_no_winner() {
    let b = board([
        "k.......",
        "........",
        "........",
        "........",
        "........",
        "........",
        "........",
        ".......K",
    ]);
    assert_eq!(find_winner(&b, &standard_pieces()), 'N');
}

#[test]
fn black_rooks_trap_white_king() {
    let b = board([
        "K......r",
        ".......r",
        "........",
        "........",
        "........",
        "........",
        "........",
        ".......k",
    ]);
    assert_eq!(find_winner(&b, &standard_pieces()), 'B');
}

#[test]
fn rotations_of_offsets() {
    let up = offsets(&[(0, 1), (0, 2)]);
    let axes = Offset::all_axis(&up);
    assert_eq!(axes.len(), 4);
    assert_eq!(pairs(&axes[0]), vec![(0, 1), (0, 2)]);
    assert_eq!(pairs(&axes[1]), vec![(-1, 0), (-2, 0)]);
    assert_eq!(pairs(&axes[2]), vec![(0, -1), (0, -2)]);
    assert_eq!(pairs(&axes[3]), vec![(1, 0), (2, 0)]);
    assert_eq!(pairs(&Offset::rotate_90_cw(&up)), pairs(&axes[1]));
}

#[test]
fn four_quarter_turns_give_back_the_offsets() {
    let l = offsets(&[(1, -2), (-3, 5)]);
    let mut v = Offset::rotate_90_cw(&l);
    v = Offset::rotate_90_cw(&v);
    v = Offset::rotate_90_cw(&v);
    v = Offset::rotate_90_cw(&v);
    assert_eq!(pairs(&v), pairs(&l));
}

#[test]
fn piece_letters_follow_colour() {
    assert_eq!(Piece::new(true, 'k', vec![]).c, 'K');
    assert_eq!(Piece::new(false, 'Q', vec![]).c, 'q');
    assert_eq!(Piece::new(true, '.', vec![]).c, '.');
    let rook = Piece::new(true, 'r', Offset::all_axis(&offsets(&[(0, 1)])));
    let black = Piece::just_inverse_color(&rook);
    assert!(!black.white);
    assert_eq!(black.c, 'r');
    assert_eq!(black.allowed_moves.len(), 4);
    assert_eq!(pairs(&black.allowed_moves[1]), vec![(-1, 0)]);
}

#[test]
fn standard_table_letters() {
    let t = standard_pieces();
    let letters: String = t.iter().map(|p| p.c).collect();
    assert_eq!(letters, "pPKRBQNrkbqn.");
    assert_eq!(t[5].allowed_moves.len(), 8);
    assert_eq!(t[6].allowed_moves.len(), 8);
    assert_eq!(t[2].allowed_moves.len(), 6);
}

#[test]
fn bounds_of_the_board() {
    assert!(within_bounds(0));
    assert!(within_bounds(7));
    assert!(!within_bounds(8));
    assert!(!within_bounds(usize::MAX));
}

#[test]
fn king_saved_by_a_free_neighbour() {
    let king = Piece::new(true, 'k', vec![offsets(&[(0, 1)]), offsets(&[(1, 1)])]);
    let mut layer = vec![vec![true; 8]; 8];
    layer[3][3] = false;
    layer[4][3] = false;
    let mut base = vec!['.'; 64];
    assert!(can_be_saved(
        Piece::new(true, 'k', vec![offsets(&[(0, 1)]), offsets(&[(1, 1)])]),
        Offset { col: 3, row: 3 },
        &mut layer,
        &mut base
    ));
    layer[4][4] = false;
    assert!(!can_be_saved(king, Offset { col: 3, row: 3 }, &mut layer, &mut base));
}

#[test]
fn piece_description() {
    assert_eq!(Piece::new(true, 'q', vec![]).describe(), "true, Q");
    assert_eq!(Piece::new(false, 'K', vec![]).describe(), "false, k");
    assert_eq!(Piece::new(true, '.', vec![]).describe(), "true, .");
}
