use tetrizz::board::{Board, Column};
use tetrizz::game::Game;
use tetrizz::geometry::{Piece, PieceLocation, Rotation};
use tetrizz::geometry::kicks;
use tetrizz::movegen::movegen_piece;

fn empty_board() -> Board {
    Board { cols: [Column(0); 10] }
}

fn board_from(cols: [u64; 10]) -> Board {
    Board {
        cols: [
            Column(cols[0]),
            Column(cols[1]),
            Column(cols[2]),
            Column(cols[3]),
            Column(cols[4]),
            Column(cols[5]),
            Column(cols[6]),
            Column(cols[7]),
            Column(cols[8]),
            Column(cols[9]),
        ],
    }
}

#[test]
fn movegen() {
    let mut game = Game::new(None);
    game.board.cols = [
        Column(7),
        Column(127),
        Column(31),
        Column(31),
        Column(31),
        Column(1),
        Column(0),
        Column(15),
        Column(15),
        Column(15),
    ];
    println!(
        "{:?}",
        movegen_piece(&game.board, Piece::T)
            .iter()
            .map(|x| format!(
                "({},{},{}),",
                x.x,
                x.y,
                x.rotation as i8 + (if x.spun { 100 } else { 0 })
            ))
            .collect::<String>()
    );
}

#[test]
fn empty_board_piece_i_has_seventeen_placements() {
    let board = empty_board();
    let locs = movegen_piece(&board, Piece::I);
    assert_eq!(locs.len(), 17);
    let horizontal: Vec<&PieceLocation> =
        locs.iter().filter(|l| matches!(l.rotation, Rotation::Up)).collect();
    let vertical: Vec<&PieceLocation> =
        locs.iter().filter(|l| matches!(l.rotation, Rotation::Right)).collect();
    assert_eq!(horizontal.len(), 7);
    assert_eq!(vertical.len(), 10);
    for l in horizontal {
        assert_eq!(l.y, 0);
    }
    for l in vertical {
        assert_eq!(l.y, 2);
    }
}

#[test]
fn t_candidate_in_column_six_well() {
    let board = board_from([7, 127, 31, 31, 31, 1, 0, 15, 15, 15]);
    let locs = movegen_piece(&board, Piece::T);
    // the T that tucks into the notch of the column-6 well, filling
    // (6,0), (6,1), (6,2) and (5,1)
    let well = locs
        .iter()
        .find(|l| l.x == 6 && l.y == 1 && matches!(l.rotation, Rotation::Left))
        .expect("T resting inside the column-6 well");
    // every column of this board is filled from the floor up, so each
    // resting position is reachable by sliding alone and none needs a
    // final rotation: no placement carries the spin flag
    assert!(!well.spun);
    assert!(locs.iter().all(|l| !l.spun));
}

#[test]
fn movegen_output_is_legal() {
    let board = board_from([7, 127, 31, 31, 31, 1, 0, 15, 15, 15]);
    for piece in [
        Piece::I,
        Piece::O,
        Piece::T,
        Piece::L,
        Piece::J,
        Piece::S,
        Piece::Z,
    ] {
        for l in movegen_piece(&board, piece) {
            assert_eq!(l.piece, piece);
            for (x, y) in l.blocks() {
                assert!((0..10).contains(&x));
                assert!((0..40).contains(&y));
                assert_eq!(board.cols[x as usize].0 & (1 << y), 0);
            }
        }
    }
}

#[test]
fn movegen_is_deterministic() {
    let board = board_from([7, 127, 31, 31, 31, 1, 0, 15, 15, 15]);
    for piece in [Piece::I, Piece::T, Piece::S, Piece::Z, Piece::O] {
        let a = movegen_piece(&board, piece);
        let b = movegen_piece(&board, piece);
        assert_eq!(a, b);
    }
}

#[test]
fn o_piece_placements_are_upright_and_unspun() {
    let board = board_from([7, 127, 31, 31, 31, 1, 0, 15, 15, 15]);
    let locs = movegen_piece(&board, Piece::O);
    assert!(!locs.is_empty());
    for l in locs {
        assert!(matches!(l.rotation, Rotation::Up));
        assert!(!l.spun);
    }
}

#[test]
fn single_line_clear_sends_nothing() {
    let mut game = Game::new(Some(Piece::O));
    game.board = board_from([1, 1, 1, 1, 1, 1, 1, 1, 1, 0]);
    let locs = movegen_piece(&game.board, Piece::I);
    let loc = *locs
        .iter()
        .find(|l| l.x == 9 && matches!(l.rotation, Rotation::Right) && l.y == 2)
        .expect("vertical I against the right wall");
    assert!(loc.possible_line_clear);
    assert!(!loc.spun);
    let info = game.advance(Piece::I, loc);
    assert_eq!(info.lines_cleared, 1);
    assert!(!info.spin);
    assert_eq!(info.garbage_sent, 0);
    // the cleared row is gone and the rest of the I column fell one row
    assert_eq!(game.board.cols[9].0, 0b111);
    for x in 0..9 {
        assert_eq!(game.board.cols[x].0, 0);
    }
}

#[test]
fn quad_clear_starts_the_streak() {
    let mut game = Game::new(Some(Piece::O));
    game.board = board_from([15, 15, 15, 15, 15, 15, 15, 15, 15, 0]);
    let locs = movegen_piece(&game.board, Piece::I);
    let loc = *locs
        .iter()
        .find(|l| l.x == 9 && matches!(l.rotation, Rotation::Right) && l.y == 2)
        .expect("vertical I against the right wall");

    // the raw attack-table value for a plain quad is four lines
    let mut raw = game.board;
    let raw_info = raw.place(loc);
    assert_eq!(raw_info.lines_cleared, 4);
    assert!(!raw_info.spin);
    assert_eq!(raw_info.garbage_sent, 4);

    // the full transition adds the streak bonus, the combo scaling and
    // the all-clear bonus on top of the table value
    let info = game.advance(Piece::I, loc);
    assert_eq!(info.lines_cleared, 4);
    assert!(!info.spin);
    assert_eq!(game.b2b, 1);
    assert_eq!(game.combo, 1);
    assert_eq!(info.garbage_sent, 11);
    for x in 0..10 {
        assert_eq!(game.board.cols[x].0, 0);
    }
}

#[test]
fn second_quad_extends_the_streak() {
    let mut game = Game::new(Some(Piece::O));
    game.board = board_from([15, 15, 15, 15, 15, 15, 15, 15, 15, 0]);
    let locs = movegen_piece(&game.board, Piece::I);
    let loc = *locs
        .iter()
        .find(|l| l.x == 9 && matches!(l.rotation, Rotation::Right) && l.y == 2)
        .expect("vertical I against the right wall");
    game.advance(Piece::I, loc);
    assert_eq!(game.b2b, 1);

    game.board = board_from([15, 15, 15, 15, 15, 15, 15, 15, 15, 0]);
    let info = game.advance(Piece::I, loc);
    assert_eq!(info.lines_cleared, 4);
    assert_eq!(game.b2b, 2);
    assert_eq!(game.combo, 2);
    assert_eq!(info.garbage_sent, 12);
}

#[test]
fn remove_lines_is_idempotent() {
    let mut board = board_from([1023, 1023, 7, 7, 1023, 1023, 1023, 1023, 1023, 3]);
    let removed = board.remove_lines();
    assert_eq!(removed, 3);
    let once = board;
    let removed_again = board.remove_lines();
    assert_eq!(removed_again, 0);
    assert_eq!(board, once);
}

#[test]
fn rotation_cycle_is_identity_on_blocks() {
    for piece in [
        Piece::I,
        Piece::O,
        Piece::T,
        Piece::L,
        Piece::J,
        Piece::S,
        Piece::Z,
    ] {
        for block in piece.blocks() {
            let mut c = block;
            for _ in 0..4 {
                c = Rotation::Right.rotate_block(c);
            }
            assert_eq!(c, block);
        }
    }
    let mut r = Rotation::Up;
    for _ in 0..4 {
        r = r.rotate_right();
    }
    assert!(matches!(r, Rotation::Up));
    assert!(matches!(Rotation::Up.rotate_left(), Rotation::Left));
    assert!(matches!(Rotation::Right.rotate_180(), Rotation::Left));
}

#[test]
fn attack_table_values() {
    // plain double sends one line
    let mut board = board_from([3, 3, 3, 3, 3, 3, 3, 3, 0, 0]);
    let loc = PieceLocation {
        piece: Piece::O,
        rotation: Rotation::Up,
        spun: false,
        x: 8,
        y: 0,
        possible_line_clear: true,
    };
    let info = board.place(loc);
    assert_eq!(info.lines_cleared, 2);
    assert_eq!(info.garbage_sent, 1);

    // a spun T clearing two rows sends four
    let mut board = board_from([3, 3, 3, 3, 1, 0, 1, 3, 3, 3]);
    let loc = PieceLocation {
        piece: Piece::T,
        rotation: Rotation::Down,
        spun: true,
        x: 5,
        y: 1,
        possible_line_clear: true,
    };
    let info = board.place(loc);
    assert_eq!(info.lines_cleared, 2);
    assert!(info.spin);
    assert_eq!(info.garbage_sent, 4);

    // the same double spun by any other piece sends one
    let mut board = board_from([3, 3, 3, 3, 1, 1, 0, 3, 3, 3]);
    let loc = PieceLocation {
        piece: Piece::J,
        rotation: Rotation::Down,
        spun: true,
        x: 5,
        y: 1,
        possible_line_clear: true,
    };
    let info = board.place(loc);
    assert_eq!(info.lines_cleared, 2);
    assert_eq!(info.garbage_sent, 1);

    // a plain triple sends two
    let mut board = board_from([7, 7, 7, 7, 7, 7, 7, 7, 7, 0]);
    let loc = PieceLocation {
        piece: Piece::I,
        rotation: Rotation::Right,
        spun: false,
        x: 9,
        y: 2,
        possible_line_clear: true,
    };
    let info = board.place(loc);
    assert_eq!(info.lines_cleared, 3);
    assert_eq!(info.garbage_sent, 2);
}

#[test]
fn combo_scales_garbage() {
    // a single clear with a running combo sends the combo logarithm
    let mut game = Game::new(Some(Piece::O));
    game.combo = 5;
    game.board = board_from([1, 1, 1, 1, 1, 1, 1, 1, 1, 0]);
    let locs = movegen_piece(&game.board, Piece::I);
    let loc = *locs
        .iter()
        .find(|l| l.x == 9 && matches!(l.rotation, Rotation::Right) && l.y == 2)
        .expect("vertical I against the right wall");
    let info = game.advance(Piece::I, loc);
    assert_eq!(game.combo, 6);
    // floor(ln(1 + 1.25 * 6)) = floor(ln(8.5)) = 2
    assert_eq!(info.garbage_sent, 2);
}

#[test]
fn hold_slot_swaps_on_mismatched_piece() {
    let mut game = Game::new(Some(Piece::L));
    let locs = movegen_piece(&game.board, Piece::L);
    let loc = locs[0];
    let next = Piece::J;
    // the placed piece is L, not the queue piece J, so J enters the hold
    game.advance(next, loc);
    assert_eq!(game.hold, Piece::J);
}

#[test]
fn game_new_starts_empty() {
    let game = Game::new(Some(Piece::S));
    assert_eq!(game.hold, Piece::S);
    assert_eq!(game.b2b, 0);
    assert_eq!(game.combo, 0);
    assert_eq!(game.b2b_deficit, 0);
    for c in game.board.cols {
        assert_eq!(c.0, 0);
    }
    let game = Game::new(None);
    assert_eq!(game.b2b, 0);
}

#[test]
fn heights_and_columns() {
    assert_eq!(Column(0).height(), 0);
    assert_eq!(Column(1).height(), 1);
    assert_eq!(Column(0b1011).height(), 4);
    let board = board_from([0, 0, 0, 0, 0b10000, 0, 0, 1, 0, 0]);
    assert_eq!(board.max_height_col(), 5);
}

#[test]
fn kick_tables_match_the_conventional_sequences() {
    assert_eq!(
        kicks(Piece::T, Rotation::Up, Rotation::Right),
        [(0, 0), (-1, 0), (-1, 1), (0, -2), (-1, -2), (0, 0)]
    );
    assert_eq!(
        kicks(Piece::I, Rotation::Right, Rotation::Up),
        [(-1, 0), (-2, 0), (1, 0), (-2, -2), (1, 1), (-1, 0)]
    );
    assert_eq!(kicks(Piece::O, Rotation::Up, Rotation::Up), [(0, 0); 6]);
}

#[test]
fn placement_blocks_are_translated_rotated_offsets() {
    let loc = PieceLocation {
        piece: Piece::T,
        rotation: Rotation::Up,
        spun: false,
        x: 4,
        y: 7,
        possible_line_clear: false,
    };
    assert_eq!(loc.blocks(), [(3, 7), (4, 7), (5, 7), (4, 8)]);
    let loc = PieceLocation { rotation: Rotation::Right, ..loc };
    assert_eq!(loc.blocks(), [(4, 8), (4, 7), (4, 6), (5, 7)]);
}

#[test]
fn movegen_with_hold_concatenates_both_pieces() {
    let mut game = Game::new(Some(Piece::O));
    game.board = board_from([7, 127, 31, 31, 31, 1, 0, 15, 15, 15]);
    let both = tetrizz::movegen::movegen(&game, Piece::T);
    let t_only = movegen_piece(&game.board, Piece::T);
    let o_only = movegen_piece(&game.board, Piece::O);
    assert_eq!(both.len(), t_only.len() + o_only.len());
    assert!(both.iter().all(|l| l.piece == Piece::T || l.piece == Piece::O));
}

#[test]
fn place_leaves_no_full_row() {
    let mut game = Game::new(Some(Piece::O));
    game.board = board_from([15, 15, 15, 15, 15, 15, 15, 15, 15, 0]);
    let locs = movegen_piece(&game.board, Piece::I);
    let loc = *locs
        .iter()
        .find(|l| l.x == 9 && matches!(l.rotation, Rotation::Right) && l.y == 2)
        .unwrap();
    game.advance(Piece::I, loc);
    for y in 0..40u64 {
        let full = (0..10).all(|x| game.board.cols[x].0 & (1 << y) != 0);
        assert!(!full);
    }
}

#[test]
fn t_spin_double_is_recognized_and_scored() {
    // rows 0 and 1 full except a T-shaped slot at columns 3..=5, with
    // an overhang at (5, 2): the slot can only be entered by rotating
    // in place, so the placement carries the spin flag
    let mut game = Game::new(Some(Piece::O));
    game.board = board_from([3, 3, 3, 1, 0, 5, 3, 3, 3, 3]);
    let locs = movegen_piece(&game.board, Piece::T);
    let slot = *locs
        .iter()
        .find(|l| l.x == 4 && l.y == 1 && matches!(l.rotation, Rotation::Down))
        .expect("T rotated into the slot under the overhang");
    assert!(slot.spun);
    assert!(slot.possible_line_clear);

    let info = game.advance(Piece::T, slot);
    assert_eq!(info.lines_cleared, 2);
    assert!(info.spin);
    assert_eq!(game.b2b, 1);
    // attack table 4, streak bonus 1, combo scaling floor(5 * 5/4) = 6
    assert_eq!(info.garbage_sent, 6);
    // the overhang cell fell two rows onto the floor
    assert_eq!(game.board.cols[5].0, 1);
    for x in [0, 1, 2, 3, 4, 6, 7, 8, 9] {
        assert_eq!(game.board.cols[x].0, 0);
    }
}

#[test]
fn combo_log_reaches_its_top_step() {
    // just past the last threshold of the combo logarithm table
    let mut game = Game::new(Some(Piece::O));
    game.combo = 1_055_052_586;
    game.board = board_from([1, 1, 1, 1, 1, 1, 1, 1, 1, 0]);
    let locs = movegen_piece(&game.board, Piece::I);
    let loc = *locs
        .iter()
        .find(|l| l.x == 9 && matches!(l.rotation, Rotation::Right) && l.y == 2)
        .unwrap();
    let info = game.advance(Piece::I, loc);
    assert_eq!(game.combo, 1_055_052_587);
    // floor(ln(1 + 1.25 * combo)) = 21 from this combo on
    assert_eq!(info.garbage_sent, 21);
}

#[test]
fn plain_clear_pays_out_a_long_streak_as_surge() {
    let mut game = Game::new(Some(Piece::T));
    game.b2b = 6;
    // the extra cell at (0, 2) keeps the board from emptying, so the
    // clear is a plain double, not an all clear
    game.board = board_from([7, 3, 3, 3, 3, 3, 3, 3, 0, 0]);
    let locs = movegen_piece(&game.board, Piece::O);
    let loc = *locs
        .iter()
        .find(|l| l.x == 8 && l.y == 0)
        .expect("O dropped into the right corner");
    let info = game.advance(Piece::O, loc);
    assert_eq!(info.lines_cleared, 2);
    // the plain double ends the streak and pays it out once
    assert_eq!(game.b2b, 0);
    assert_eq!(game.combo, 1);
    // attack 1, scaled by combo to floor(5/4) = 1, plus the surge of 6
    assert_eq!(info.garbage_sent, 7);
}

#[test]
fn feature_counts_are_exact() {
    // column 0 holds rows 0, 1 and 3; the empty row 2 is one hole,
    // buried two rows under the column top
    let board = board_from([0b1011, 0, 0, 0, 0, 0, 0, 0, 0, 0]);
    assert_eq!(tetrizz::features::total_holes(&board), 1);
    assert_eq!(tetrizz::features::coveredness(&board), 2);
    // the only boundary runs between columns 0 and 1: three filled cells
    assert_eq!(tetrizz::features::row_transitions(&board), 3);

    let board = board_from([7, 127, 31, 31, 31, 1, 0, 15, 15, 15]);
    assert_eq!(tetrizz::features::total_holes(&board), 0);
    assert_eq!(tetrizz::features::coveredness(&board), 0);
    assert_eq!(
        tetrizz::features::row_transitions(&board),
        (127u64 ^ 7).count_ones() + (127u64 ^ 31).count_ones() + (31u64 ^ 1).count_ones()
            + 1 + (15u64).count_ones() + 0 + 0
    );
}
