use reversi::reversi::position::Position;
use reversi::reversi::score::Score;
use reversi::reversi::side::Side;
use reversi::reversi::ErrorKind;
use reversi::reversi::Reversi;

#[test]
fn reverci() {
    let mut instance = Reversi::new(8, 8);
    println!("Possible places: {:?}", instance.possible_places());
    if let Err(msg) = instance.place(Position(3, 4)) {
        println!("{}", msg.message())
    }
    if let Err(msg) = instance.place(Position(5, 3)) {
        println!("{}", msg.message())
    }
    if let Err(msg) = instance.place(Position(6, 2)) {
        println!("{}", msg.message())
    }
    println!("Possible places: {:?}", instance.possible_places());
    println!("Get scores: {:?}", instance.get_scores());
    println!("{:#?}", instance);
}

#[test]
fn initial_layout() {
    let g = Reversi::new(8, 8);
    assert_eq!(g.width, 8);
    assert_eq!(g.height, 8);
    assert_eq!(g.active_side, Side::Dark);
    assert_eq!(g.disk_at(Position(4, 4)), Some(Side::White));
    assert_eq!(g.disk_at(Position(5, 5)), Some(Side::White));
    assert_eq!(g.disk_at(Position(4, 5)), Some(Side::Dark));
    assert_eq!(g.disk_at(Position(5, 4)), Some(Side::Dark));
    let mut occupied: i32 = 0;
    for r in 1..=8isize {
        for c in 1..=8isize {
            if g.disk_at(Position(r, c)).is_some() {
                occupied += 1;
            }
        }
    }
    assert_eq!(occupied, 4);
    assert_eq!(g.get_scores(), Score(2, 2));
}

#[test]
fn initial_possible_places() {
    let g = Reversi::new(8, 8);
    let moves = g.possible_places();
    assert_eq!(
        moves,
        vec![Position(3, 4), Position(4, 3), Position(5, 6), Position(6, 5)]
    );
}

#[test]
fn place_captures_south() {
    let mut g = Reversi::new(8, 8);
    assert_eq!(g.place(Position(3, 4)), Ok(()));
    assert_eq!(g.disk_at(Position(3, 4)), Some(Side::Dark));
    assert_eq!(g.disk_at(Position(4, 4)), Some(Side::Dark));
    assert_eq!(g.active_side, Side::White);
    assert_eq!(g.get_scores(), Score(1, 4));
}

#[test]
fn no_valid_line_on_isolated_corner() {
    let mut g = Reversi::new(8, 8);
    assert_eq!(g.place(Position(8, 8)), Err(ErrorKind::NoValidLine));
    assert_eq!(g.active_side, Side::Dark);
    assert_eq!(g.get_scores(), Score(2, 2));
}

#[test]
fn invalid_position_when_occupied() {
    let mut g = Reversi::new(8, 8);
    assert_eq!(g.place(Position(4, 4)), Err(ErrorKind::InvalidPosition));
}

#[test]
fn invalid_position_out_of_board() {
    let mut g = Reversi::new(8, 8);
    assert_eq!(g.place(Position(9, 9)), Err(ErrorKind::InvalidPosition));
    assert_eq!(g.place(Position(0, 1)), Err(ErrorKind::InvalidPosition));
    assert_eq!(g.place(Position(-3, 4)), Err(ErrorKind::InvalidPosition));
}

#[test]
fn no_mutation_on_failure() {
    let mut g = Reversi::new(8, 8);
    let before_moves = g.possible_places();
    let before_scores = g.get_scores();
    let before_side = g.active_side;
    assert!(g.place(Position(8, 8)).is_err());
    assert!(g.place(Position(4, 4)).is_err());
    assert!(g.place(Position(9, 9)).is_err());
    assert_eq!(g.possible_places(), before_moves);
    assert_eq!(g.get_scores(), before_scores);
    assert_eq!(g.active_side, before_side);
    for r in 1..=8isize {
        for c in 1..=8isize {
            let fresh = Reversi::new(8, 8);
            assert_eq!(g.disk_at(Position(r, c)), fresh.disk_at(Position(r, c)));
        }
    }
}

#[test]
fn turn_alternation() {
    let mut g = Reversi::new(8, 8);
    assert_eq!(g.active_side, Side::Dark);
    assert_eq!(g.place(Position(3, 4)), Ok(()));
    assert_eq!(g.active_side, Side::White);
    assert_eq!(g.place(Position(3, 5)), Ok(()));
    assert_eq!(g.active_side, Side::Dark);
}

#[test]
fn alternation_and_conservation_over_a_game() {
    let mut g = Reversi::new(8, 8);
    let mut total: isize = 4;
    for _ in 0..20u32 {
        let moves = g.possible_places();
        if moves.is_empty() {
            break;
        }
        let side_before = g.active_side;
        let scores_before = g.get_scores();
        assert_eq!(scores_before.0 + scores_before.1, total);
        assert_eq!(g.place(moves[0]), Ok(()));
        let scores_after = g.get_scores();
        assert_eq!(scores_after.0 + scores_after.1, total + 1);
        assert_eq!(g.active_side, side_before.rev());
        total += 1;
    }
}

#[test]
fn possible_places_soundness() {
    let g = Reversi::new(8, 8);
    for pos in g.possible_places() {
        assert!(pos.0 >= 1 && pos.0 <= 8 && pos.1 >= 1 && pos.1 <= 8);
        assert_eq!(g.disk_at(pos), None);
        let mut fresh = Reversi::new(8, 8);
        assert_eq!(fresh.place(pos), Ok(()));
    }
}

#[test]
fn possible_places_row_major_order() {
    let mut g = Reversi::new(8, 8);
    let _ = g.place(Position(3, 4));
    let moves = g.possible_places();
    for w in moves.windows(2) {
        assert!(w[0].0 < w[1].0 || (w[0].0 == w[1].0 && w[0].1 < w[1].1));
    }
}

#[test]
fn side_reverse_involutive() {
    assert_eq!(Side::Dark.rev(), Side::White);
    assert_eq!(Side::White.rev(), Side::Dark);
    assert_eq!(Side::Dark.rev().rev(), Side::Dark);
    assert_eq!(Side::White.rev().rev(), Side::White);
}

#[test]
fn side_names() {
    assert_eq!(Side::Dark.name(), "Dark");
    assert_eq!(Side::White.name(), "White");
}

#[test]
fn error_messages() {
    assert_eq!(
        ErrorKind::InvalidPosition.message(),
        "Position isn't in board or another disk already placed."
    );
    assert_eq!(ErrorKind::NoValidLine.message(), "This position hasn't valid line.");
}

#[test]
fn position_add() {
    assert_eq!(Position(1, 2).add(Position(-1, 1)), Position(0, 3));
    assert_eq!(Position(3, 4).add(Position(1, 0)), Position(4, 4));
}

#[test]
fn score_add() {
    assert_eq!(Score(1, 2).add(Score(3, 4)), Score(4, 6));
}

#[test]
fn tiny_board_keeps_only_in_board_initial_disks() {
    let g = Reversi::new(1, 1);
    assert_eq!(g.disk_at(Position(1, 1)), Some(Side::White));
    assert_eq!(g.get_scores(), Score(1, 0));
    assert_eq!(g.possible_places(), vec![]);
}

#[test]
fn two_by_two_board_is_full() {
    let mut g = Reversi::new(2, 2);
    assert_eq!(g.disk_at(Position(1, 1)), Some(Side::White));
    assert_eq!(g.disk_at(Position(2, 2)), Some(Side::White));
    assert_eq!(g.disk_at(Position(1, 2)), Some(Side::Dark));
    assert_eq!(g.disk_at(Position(2, 1)), Some(Side::Dark));
    assert_eq!(g.get_scores(), Score(2, 2));
    assert_eq!(g.possible_places(), vec![]);
    assert_eq!(g.place(Position(1, 1)), Err(ErrorKind::InvalidPosition));
}
