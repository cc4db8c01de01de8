use blockdoku::piece::Piece;

#[test]
fn new_piece_is_blank_at_origin() {
    let p = Piece::new();
    assert_eq!(p, Piece { x: 0, y: 0, shape: [[false; 3]; 3] });
}

#[test]
fn random_piece_is_at_origin() {
    for _ in 0..20 {
        let p = Piece::random();
        assert_eq!((p.x, p.y), (0, 0));
    }
}

#[test]
fn with_shape_keeps_mask() {
    let mut shape = [[false; 3]; 3];
    shape[2][1] = true;
    assert_eq!(Piece::with_shape(shape), Piece { x: 0, y: 0, shape });
}

#[test]
fn bounds_of_blank_mask() {
    assert_eq!(Piece::new().bounds(), (2, 2, 0, 0));
}

#[test]
fn bounds_of_single_cell() {
    let mut shape = [[false; 3]; 3];
    shape[1][2] = true;
    assert_eq!(Piece::with_shape(shape).bounds(), (1, 2, 1, 2));
}

#[test]
fn bounds_of_spread_cells() {
    let mut shape = [[false; 3]; 3];
    shape[0][1] = true;
    shape[2][0] = true;
    assert_eq!(Piece::with_shape(shape).bounds(), (0, 0, 2, 1));
}

#[test]
fn bounds_of_full_mask() {
    assert_eq!(Piece::with_shape([[true; 3]; 3]).bounds(), (0, 0, 2, 2));
}
