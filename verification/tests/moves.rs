use chess_core::board::CellState;
use chess_core::board::Color;
use chess_core::board::Grid;
use chess_core::board::Side;
use chess_core::piece::PieceKind;

fn count_move_targets(g: &Grid) -> usize {
    let mut count = 0;
    for x in 0..8i8 {
        for y in 0..8i8 {
            if g.get(x, y) == CellState::MoveTarget {
                count += 1;
            }
        }
    }
    count
}

fn lone_piece(x: i8, y: i8, side: Side, kind: PieceKind) -> Grid {
    let mut g = Grid::new(Color::Black, Color::White);
    assert_eq!(g.place_piece(x, y, side, kind), Ok(()));
    g
}

#[test]
fn moves_for_never_mutates_the_input_grid() {
    let g = Grid::new_standard_formation(Color::Black, Color::White);
    let mut before = Vec::new();
    for x in 0..8i8 {
        for y in 0..8i8 {
            before.push(g.get(x, y));
        }
    }
    for x in 0..8i8 {
        for y in 0..8i8 {
            let _ = g.moves_for(x, y);
        }
    }
    let mut idx = 0;
    for x in 0..8i8 {
        for y in 0..8i8 {
            assert_eq!(g.get(x, y), before[idx]);
            idx += 1;
        }
    }
}

#[test]
fn moves_for_an_empty_cell_returns_the_grid_unchanged() {
    let g = Grid::new_standard_formation(Color::Black, Color::White);
    let r = g.moves_for(4, 4);
    for x in 0..8i8 {
        for y in 0..8i8 {
            assert_eq!(r.get(x, y), g.get(x, y));
        }
    }
}

#[test]
fn rook_alone_marks_fourteen_squares_from_every_square() {
    for x in 0..8i8 {
        for y in 0..8i8 {
            let g = lone_piece(x, y, Side::You, PieceKind::Rook);
            let r = g.moves_for(x, y);
            assert_eq!(count_move_targets(&r), 14);
            assert_eq!(r.get(x, y), CellState::Occupied(PieceKind::Rook, Side::You));
        }
    }
}

#[test]
fn knight_in_every_corner_marks_exactly_two_squares() {
    for (x, y) in [(0i8, 0i8), (0, 7), (7, 0), (7, 7)] {
        let g = lone_piece(x, y, Side::Opponent, PieceKind::Knight);
        let r = g.moves_for(x, y);
        assert_eq!(count_move_targets(&r), 2);
    }
}

#[test]
fn knight_two_squares_from_every_edge_marks_exactly_eight() {
    for x in 2..6i8 {
        for y in 2..6i8 {
            let g = lone_piece(x, y, Side::You, PieceKind::Knight);
            let r = g.moves_for(x, y);
            assert_eq!(count_move_targets(&r), 8);
        }
    }
}

#[test]
fn knight_from_a_corner_marks_the_two_expected_squares() {
    let g = lone_piece(0, 7, Side::You, PieceKind::Knight);
    let r = g.moves_for(0, 7);
    assert_eq!(r.get(1, 5), CellState::MoveTarget);
    assert_eq!(r.get(2, 6), CellState::MoveTarget);
}

#[test]
fn pawn_marks_exactly_its_forward_square() {
    let g = lone_piece(4, 4, Side::You, PieceKind::Pawn);
    let r = g.moves_for(4, 4);
    assert_eq!(r.get(4, 3), CellState::MoveTarget);
    assert_eq!(count_move_targets(&r), 1);

    let g = lone_piece(4, 4, Side::Opponent, PieceKind::Pawn);
    let r = g.moves_for(4, 4);
    assert_eq!(r.get(4, 5), CellState::MoveTarget);
    assert_eq!(count_move_targets(&r), 1);
}

#[test]
fn pawn_on_its_last_rank_marks_nothing() {
    let g = lone_piece(4, 0, Side::You, PieceKind::Pawn);
    let r = g.moves_for(4, 0);
    assert_eq!(count_move_targets(&r), 0);

    let g = lone_piece(4, 7, Side::Opponent, PieceKind::Pawn);
    let r = g.moves_for(4, 7);
    assert_eq!(count_move_targets(&r), 0);
}

#[test]
fn pawn_facing_an_opposing_piece_marks_it_as_a_hit() {
    let mut g = lone_piece(4, 4, Side::You, PieceKind::Pawn);
    assert_eq!(g.place_piece(4, 3, Side::Opponent, PieceKind::Rook), Ok(()));
    let r = g.moves_for(4, 4);
    assert_eq!(
        r.get(4, 3),
        CellState::HitTarget(PieceKind::Rook, Side::Opponent)
    );
    assert_eq!(count_move_targets(&r), 0);
}

#[test]
fn king_marks_its_four_orthogonal_neighbours() {
    let g = lone_piece(4, 4, Side::You, PieceKind::King);
    let r = g.moves_for(4, 4);
    assert_eq!(r.get(4, 3), CellState::MoveTarget);
    assert_eq!(r.get(4, 5), CellState::MoveTarget);
    assert_eq!(r.get(3, 4), CellState::MoveTarget);
    assert_eq!(r.get(5, 4), CellState::MoveTarget);
    assert_eq!(count_move_targets(&r), 4);
}

#[test]
fn king_in_a_corner_marks_two_squares() {
    let g = lone_piece(0, 0, Side::You, PieceKind::King);
    let r = g.moves_for(0, 0);
    assert_eq!(r.get(1, 0), CellState::MoveTarget);
    assert_eq!(r.get(0, 1), CellState::MoveTarget);
    assert_eq!(count_move_targets(&r), 2);
}

#[test]
fn queen_alone_in_the_middle_marks_rank_file_and_diagonals() {
    let g = lone_piece(3, 3, Side::You, PieceKind::Queen);
    let r = g.moves_for(3, 3);
    // 14 orthogonal squares plus the 13 diagonal squares from (3, 3)
    assert_eq!(count_move_targets(&r), 27);
}

#[test]
fn bishop_at_c1_marks_its_diagonals_to_the_edges() {
    // file c / rank 1 for the near side is (2, 7) in storage coordinates
    let g = lone_piece(2, 7, Side::You, PieceKind::Bishop);
    let r = g.moves_for(2, 7);
    let expected = [(3i8, 6i8), (4, 5), (5, 4), (6, 3), (7, 2), (1, 6), (0, 5)];
    for (x, y) in expected {
        assert_eq!(r.get(x, y), CellState::MoveTarget, "({}, {})", x, y);
    }
    assert_eq!(count_move_targets(&r), expected.len());
}

#[test]
fn blocked_rook_stops_at_blockers_and_edges() {
    // rook at the top-left corner, an own pawn two below, an opposing
    // piece three to the right
    let mut g = lone_piece(0, 0, Side::You, PieceKind::Rook);
    assert_eq!(g.place_piece(0, 2, Side::You, PieceKind::Pawn), Ok(()));
    assert_eq!(g.place_piece(3, 0, Side::Opponent, PieceKind::Bishop), Ok(()));
    let r = g.moves_for(0, 0);

    // westward and northward rays leave the board at once: no marks
    // southward: one mark, then the own pawn blocks, itself unmarked
    assert_eq!(r.get(0, 1), CellState::MoveTarget);
    assert_eq!(r.get(0, 2), CellState::Occupied(PieceKind::Pawn, Side::You));
    assert_eq!(r.get(0, 3), CellState::Empty);
    // eastward: two marks, then the opposing piece is hit and stops the ray
    assert_eq!(r.get(1, 0), CellState::MoveTarget);
    assert_eq!(r.get(2, 0), CellState::MoveTarget);
    assert_eq!(
        r.get(3, 0),
        CellState::HitTarget(PieceKind::Bishop, Side::Opponent)
    );
    assert_eq!(r.get(4, 0), CellState::Empty);
    assert_eq!(count_move_targets(&r), 3);
}

#[test]
fn sliding_rays_never_mark_past_the_first_blocker() {
    let mut g = lone_piece(3, 3, Side::You, PieceKind::Queen);
    assert_eq!(g.place_piece(5, 5, Side::Opponent, PieceKind::Pawn), Ok(()));
    assert_eq!(g.place_piece(3, 6, Side::You, PieceKind::Pawn), Ok(()));
    let r = g.moves_for(3, 3);
    // south-east: marked up to and including the opposing pawn, not past it
    assert_eq!(r.get(4, 4), CellState::MoveTarget);
    assert_eq!(
        r.get(5, 5),
        CellState::HitTarget(PieceKind::Pawn, Side::Opponent)
    );
    assert_eq!(r.get(6, 6), CellState::Empty);
    assert_eq!(r.get(7, 7), CellState::Empty);
    // south: marked up to the own pawn, which stays unmarked
    assert_eq!(r.get(3, 4), CellState::MoveTarget);
    assert_eq!(r.get(3, 5), CellState::MoveTarget);
    assert_eq!(r.get(3, 6), CellState::Occupied(PieceKind::Pawn, Side::You));
    assert_eq!(r.get(3, 7), CellState::Empty);
}

#[test]
fn annotations_preserve_the_color_mapping() {
    let g = Grid::new_standard_formation(Color::White, Color::Black);
    let r = g.moves_for(0, 6);
    assert_eq!(r.color_of(Side::You), Color::White);
    assert_eq!(r.color_of(Side::Opponent), Color::Black);
}
