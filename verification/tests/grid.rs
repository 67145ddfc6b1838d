use chess_core::board::CellState;
use chess_core::board::Color;
use chess_core::board::Grid;
use chess_core::board::GridError;
use chess_core::board::Side;
use chess_core::piece::PieceKind;

#[test]
fn in_bounds_accepts_every_board_coordinate() {
    let g = Grid::new(Color::Black, Color::White);
    for x in 0..8i8 {
        for y in 0..8i8 {
            assert!(g.is_in_bounds(x, y));
        }
    }
}

#[test]
fn in_bounds_rejects_negative_and_oversized_components() {
    let g = Grid::new(Color::Black, Color::White);
    assert!(!g.is_in_bounds(-1, 0));
    assert!(!g.is_in_bounds(0, -1));
    assert!(!g.is_in_bounds(-3, -3));
    assert!(!g.is_in_bounds(8, 0));
    assert!(!g.is_in_bounds(0, 8));
    assert!(!g.is_in_bounds(8, 8));
    assert!(!g.is_in_bounds(127, 3));
    assert!(!g.is_in_bounds(3, -128));
}

#[test]
fn new_grid_is_empty_with_the_given_colors() {
    let g = Grid::new(Color::Black, Color::White);
    for x in 0..8i8 {
        for y in 0..8i8 {
            assert_eq!(g.get(x, y), CellState::Empty);
        }
    }
    assert_eq!(g.color_of(Side::You), Color::Black);
    assert_eq!(g.color_of(Side::Opponent), Color::White);
    assert_eq!(g.width(), 8);
    assert_eq!(g.height(), 8);
}

#[test]
fn place_piece_then_get_returns_the_piece() {
    let mut g = Grid::new(Color::White, Color::Black);
    assert_eq!(g.place_piece(4, 4, Side::You, PieceKind::Queen), Ok(()));
    assert_eq!(
        g.get(4, 4),
        CellState::Occupied(PieceKind::Queen, Side::You)
    );
    assert_eq!(g.get(4, 5), CellState::Empty);
}

#[test]
fn place_piece_out_of_bounds_is_rejected() {
    let mut g = Grid::new(Color::Black, Color::White);
    assert_eq!(
        g.place_piece(8, 0, Side::You, PieceKind::Pawn),
        Err(GridError::OutOfBounds)
    );
    assert_eq!(
        g.place_piece(0, -1, Side::You, PieceKind::Pawn),
        Err(GridError::OutOfBounds)
    );
}

#[test]
fn place_piece_on_an_occupied_cell_is_rejected() {
    let mut g = Grid::new(Color::Black, Color::White);
    assert_eq!(g.place_piece(2, 2, Side::You, PieceKind::Rook), Ok(()));
    assert_eq!(
        g.place_piece(2, 2, Side::Opponent, PieceKind::Pawn),
        Err(GridError::CellNotEmpty)
    );
    assert_eq!(
        g.get(2, 2),
        CellState::Occupied(PieceKind::Rook, Side::You)
    );
}

#[test]
fn standard_formation_has_the_canonical_layout() {
    let g = Grid::new_standard_formation(Color::Black, Color::White);
    let back = [
        PieceKind::Rook,
        PieceKind::Knight,
        PieceKind::Bishop,
        PieceKind::Queen,
        PieceKind::King,
        PieceKind::Bishop,
        PieceKind::Knight,
        PieceKind::Rook,
    ];
    for x in 0..8i8 {
        assert_eq!(
            g.get(x, 0),
            CellState::Occupied(back[x as usize], Side::Opponent)
        );
        assert_eq!(
            g.get(x, 1),
            CellState::Occupied(PieceKind::Pawn, Side::Opponent)
        );
        assert_eq!(
            g.get(x, 6),
            CellState::Occupied(PieceKind::Pawn, Side::You)
        );
        assert_eq!(
            g.get(x, 7),
            CellState::Occupied(back[x as usize], Side::You)
        );
        for y in 2..6i8 {
            assert_eq!(g.get(x, y), CellState::Empty);
        }
    }
}

#[test]
fn standard_formation_rejects_placement_on_every_occupied_square() {
    let mut g = Grid::new_standard_formation(Color::Black, Color::White);
    for x in 0..8i8 {
        for y in [0i8, 1, 6, 7] {
            assert_eq!(
                g.place_piece(x, y, Side::You, PieceKind::Queen),
                Err(GridError::CellNotEmpty)
            );
        }
    }
    assert_eq!(g.place_piece(4, 4, Side::You, PieceKind::Queen), Ok(()));
}

#[test]
fn mark_move_or_capture_annotates_and_reports_blocking() {
    let mut g = Grid::new(Color::Black, Color::White);
    assert_eq!(g.place_piece(3, 3, Side::You, PieceKind::Rook), Ok(()));
    assert_eq!(g.place_piece(3, 5, Side::You, PieceKind::Pawn), Ok(()));
    assert_eq!(g.place_piece(3, 1, Side::Opponent, PieceKind::Knight), Ok(()));

    // an empty target becomes a move target and the ray may continue
    assert!(!g.mark_move_or_capture(3, 3, 3, 4));
    assert_eq!(g.get(3, 4), CellState::MoveTarget);

    // an own-side target is left untouched and the ray stops
    assert!(g.mark_move_or_capture(3, 3, 3, 5));
    assert_eq!(g.get(3, 5), CellState::Occupied(PieceKind::Pawn, Side::You));

    // an opposing target becomes a hit target and the ray stops
    assert!(g.mark_move_or_capture(3, 3, 3, 1));
    assert_eq!(
        g.get(3, 1),
        CellState::HitTarget(PieceKind::Knight, Side::Opponent)
    );
}

#[test]
fn get_symbol_gives_the_two_letter_codes() {
    assert_eq!(chess_core::piece::get_symbol(PieceKind::Bishop), "BI");
    assert_eq!(chess_core::piece::get_symbol(PieceKind::King), "KI");
    assert_eq!(chess_core::piece::get_symbol(PieceKind::Knight), "KN");
    assert_eq!(chess_core::piece::get_symbol(PieceKind::Pawn), "PA");
    assert_eq!(chess_core::piece::get_symbol(PieceKind::Queen), "QU");
    assert_eq!(chess_core::piece::get_symbol(PieceKind::Rook), "RO");
}

#[test]
fn render_dumps_ten_lines_with_file_letters_and_ranks() {
    let g = Grid::new_standard_formation(Color::Black, Color::White);
    let dump = g.render();
    let lines: Vec<&str> = dump.split('\n').collect();
    assert_eq!(lines.len(), 10);
    assert_eq!(lines[0], "   a   b   c   d   e   f   g   h  ");
    assert_eq!(lines[9], "   a   b   c   d   e   f   g   h  ");
    for (idx, rank) in (1..9).zip([8, 7, 6, 5, 4, 3, 2, 1]) {
        let line = lines[idx];
        assert!(line.starts_with(&format!("{} ", rank)));
        assert!(line.ends_with(&format!(" {}", rank)));
    }
    // the far back rank reads rook, knight, bishop, queen, king, ...
    for code in ["RO", "KN", "BI", "QU", "KI"] {
        assert!(lines[1].contains(code));
    }
    assert!(!lines[1].contains(".."));
}

#[test]
fn render_shows_move_and_hit_markers() {
    let mut g = Grid::new(Color::Black, Color::White);
    assert_eq!(g.place_piece(0, 0, Side::You, PieceKind::Rook), Ok(()));
    assert_eq!(g.place_piece(0, 3, Side::Opponent, PieceKind::Pawn), Ok(()));
    let marked = g.moves_for(0, 0);
    let dump = marked.render();
    // the two empty squares between rook and pawn read ".."
    assert!(dump.contains(".."));
    // the hit pawn is highlighted with the hit foreground code
    assert!(dump.contains("\u{001b}[91m"));
}
