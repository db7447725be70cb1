use rustversi::field::Field;
use rustversi::field::FieldError;
use rustversi::game::computer_get_best_moves;
use rustversi::game::computer_move;
use rustversi::game::possible_movement;
use rustversi::game::predict_player_corner;
use rustversi::occupytype::OccupyType;
use rustversi::point::Point;

#[test]
fn occupied_cell_never_flips_test() {
    let mut f = Field::new();
    f.init();
    // every occupied cell reports an illegal move with flip count zero,
    // for both colors
    for x in 1u8..=8 {
        for y in 1u8..=8 {
            let p = Point::new(x, y);
            if f.get_type(&p) != OccupyType::Empty {
                assert_eq!((false, 0), f.is_valid_move(&p, OccupyType::Black));
                assert_eq!((false, 0), f.is_valid_move(&p, OccupyType::White));
            }
        }
    }
}

#[test]
fn vertical_line_flip_two_test() {
    // two white discs in a vertical line just above an empty target cell,
    // bounded by a black disc: the move is legal for black and flips two
    let mut f = Field::new();
    f.add(&Point::new(5, 6), OccupyType::Black);
    f.add(&Point::new(5, 5), OccupyType::White);
    f.add(&Point::new(5, 4), OccupyType::White);
    let target = Point::new(5, 3);
    let (valid, score) = f.is_valid_move(&target, OccupyType::Black);
    assert_eq!(true, valid);
    assert_eq!(2, score);
}

#[test]
fn initial_position_four_moves_test() {
    // on the standard start each side has exactly four legal moves, each
    // flipping exactly one disc, listed in row-major scan order (highest
    // rank first, left to right)
    let mut f = Field::new();
    f.init();
    let white_moves = f.get_list_of_moves(OccupyType::White);
    assert_eq!(4, white_moves.len());
    for (_, n) in &white_moves {
        assert_eq!(1, *n);
    }
    assert_eq!(Point::new(5, 6), white_moves[0].0);
    assert_eq!(Point::new(6, 5), white_moves[1].0);
    assert_eq!(Point::new(3, 4), white_moves[2].0);
    assert_eq!(Point::new(4, 3), white_moves[3].0);
    let black_moves = f.get_list_of_moves(OccupyType::Black);
    assert_eq!(4, black_moves.len());
    for (_, n) in &black_moves {
        assert_eq!(1, *n);
    }
    assert_eq!(Point::new(4, 6), black_moves[0].0);
    assert_eq!(Point::new(3, 5), black_moves[1].0);
    assert_eq!(Point::new(6, 4), black_moves[2].0);
    assert_eq!(Point::new(5, 3), black_moves[3].0);
}

#[test]
fn move_application_effect_test() {
    // applying a move recolors exactly the flip set and the placed cell
    let mut f = Field::new();
    f.add(&Point::new(5, 6), OccupyType::Black);
    f.add(&Point::new(5, 5), OccupyType::White);
    f.add(&Point::new(5, 4), OccupyType::White);
    f.add(&Point::new(1, 1), OccupyType::White);
    let n = f.move_in_game(&Point::new(5, 3), OccupyType::Black);
    assert_eq!(2, n);
    assert_eq!(OccupyType::Black, f.get_type(&Point::new(5, 3)));
    assert_eq!(OccupyType::Black, f.get_type(&Point::new(5, 4)));
    assert_eq!(OccupyType::Black, f.get_type(&Point::new(5, 5)));
    assert_eq!(OccupyType::Black, f.get_type(&Point::new(5, 6)));
    // an uninvolved disc is untouched, and so is an empty cell
    assert_eq!(OccupyType::White, f.get_type(&Point::new(1, 1)));
    assert_eq!(OccupyType::Empty, f.get_type(&Point::new(4, 4)));
    let (w, b) = f.get_score_wb();
    assert_eq!(1, w);
    assert_eq!(4, b);
}

#[test]
fn serialize_exact_test() {
    let mut f = Field::new();
    f.init();
    let s = f.serialize();
    let expected = format!(
        "{}{}{}{}",
        "                        ", "   O#   ", "   #O   ", "                        "
    );
    assert_eq!(expected, s);
    assert_eq!(64, s.len());
}

#[test]
fn serialize_roundtrip_test() {
    // a reachable board round-trips through its serialized form
    let mut f = Field::new();
    f.init();
    let moves = f.get_list_of_moves(OccupyType::White);
    let (p, _) = moves[0];
    f.move_in_game(&p, OccupyType::White);
    let s = f.serialize();
    let mut g = Field::new();
    g.deserialize(&s).unwrap();
    for x in 1u8..=8 {
        for y in 1u8..=8 {
            let q = Point::new(x, y);
            assert_eq!(f.get_type(&q), g.get_type(&q));
        }
    }
    assert_eq!(f.serialize(), g.serialize());
}

#[test]
fn deserialize_size_mismatch_test() {
    let mut f = Field::new();
    let r = f.deserialize(&"too short".to_string());
    assert_eq!(Err(FieldError::SizeMismatch), r);
    let r = f.deserialize(&" ".repeat(65));
    assert_eq!(Err(FieldError::SizeMismatch), r);
    let r = f.deserialize(&" ".repeat(64));
    assert_eq!(Ok(()), r);
}

// A position where black has three moves: playing (1,1) is itself a
// corner; playing (4,4) flips the white disc anchoring white's reply into
// (1,1); playing (4,1) leaves that reply open and so exposes the corner.
fn corner_exposure_board() -> Field {
    let mut f = Field::new();
    f.add(&Point::new(2, 2), OccupyType::Black);
    f.add(&Point::new(3, 3), OccupyType::White);
    f.add(&Point::new(2, 1), OccupyType::White);
    f.add(&Point::new(3, 1), OccupyType::Black);
    f.add(&Point::new(5, 1), OccupyType::White);
    f.add(&Point::new(6, 1), OccupyType::Black);
    f
}

#[test]
fn ai_avoids_corner_exposure_test() {
    let f = corner_exposure_board();
    let moves = f.get_list_of_moves(OccupyType::Black);
    assert_eq!(3, moves.len());
    // the exposing candidate is recognized as such, the safe ones are not
    assert!(predict_player_corner(
        OccupyType::Black,
        &Point::new(4, 1),
        f.clone()
    ));
    assert!(!predict_player_corner(
        OccupyType::Black,
        &Point::new(4, 4),
        f.clone()
    ));
    let best = computer_get_best_moves(true, OccupyType::Black, &moves, &f);
    // the exposing move is never selected; the corner move outranks the
    // other safe candidate
    assert_eq!(1, best.len());
    assert_eq!(Point::new(1, 1), best[0]);
    for p in &best {
        assert_ne!(Point::new(4, 1), *p);
    }
    // with a singleton best set the applied move is determined
    let after = computer_move(OccupyType::Black, f);
    assert_eq!(OccupyType::Black, after.get_type(&Point::new(1, 1)));
    assert_eq!(OccupyType::Black, after.get_type(&Point::new(2, 1)));
}

// A position where black's only legal move leaves white a reply into the
// corner (8,8): the safety filter discards everything.
fn forced_exposure_board() -> Field {
    let mut f = Field::new();
    f.add(&Point::new(5, 8), OccupyType::Black);
    f.add(&Point::new(6, 8), OccupyType::White);
    f.add(&Point::new(7, 8), OccupyType::Black);
    f.add(&Point::new(5, 1), OccupyType::White);
    f.add(&Point::new(6, 1), OccupyType::Black);
    f
}

#[test]
fn ai_fallback_when_all_expose_test() {
    let f = forced_exposure_board();
    let moves = f.get_list_of_moves(OccupyType::Black);
    assert_eq!(1, moves.len());
    assert_eq!(Point::new(4, 1), moves[0].0);
    let best = computer_get_best_moves(true, OccupyType::Black, &moves, &f);
    assert_eq!(0, best.len());
    let best = computer_get_best_moves(false, OccupyType::Black, &moves, &f);
    assert_eq!(1, best.len());
    assert_eq!(Point::new(4, 1), best[0]);
    // the fallback still plays a move from the full legal set
    let after = computer_move(OccupyType::Black, f);
    assert_eq!(OccupyType::Black, after.get_type(&Point::new(4, 1)));
    assert_eq!(OccupyType::Black, after.get_type(&Point::new(5, 1)));
}

#[test]
fn no_moves_for_either_side_test() {
    // a lone disc gives neither side a legal move: the game is over, and
    // it stays over because no move can be applied
    let mut f = Field::new();
    f.add(&Point::new(4, 4), OccupyType::Black);
    assert!(!possible_movement(OccupyType::Black, &f));
    assert!(!possible_movement(OccupyType::White, &f));
    for x in 1u8..=8 {
        for y in 1u8..=8 {
            let p = Point::new(x, y);
            assert_eq!(false, f.is_valid_move(&p, OccupyType::Black).0);
            assert_eq!(false, f.is_valid_move(&p, OccupyType::White).0);
        }
    }
    // the standard start, by contrast, gives both sides moves
    let mut g = Field::new();
    g.init();
    assert!(possible_movement(OccupyType::Black, &g));
    assert!(possible_movement(OccupyType::White, &g));
}

#[test]
fn duplicate_preserves_board_test() {
    let mut f = Field::new();
    f.init();
    let g = f.duplicate();
    assert_eq!(f.serialize(), g.serialize());
}
