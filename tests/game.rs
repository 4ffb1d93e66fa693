use reversi::color::Color;
use reversi::game::{Game, Outcome, PlaceError, Position, SkipError};

fn snapshot(g: &Game) -> (Vec<Option<Color>>, i32, i32, Color, u8) {
    let mut cells = Vec::new();
    for y in 0..8 {
        for x in 0..8 {
            cells.push(g.get((x, y)));
        }
    }
    (cells, g.black_points(), g.white_points(), g.turn(), g.passes())
}

/// A game whose board holds only Black discs: neither side can move.
fn all_black() -> Game {
    let mut g = Game::new();
    g.set_with_color((3, 3), Color::Black);
    g.decr_points(Color::White);
    g.set_with_color((4, 4), Color::Black);
    g.decr_points(Color::White);
    g
}

#[test]
fn opening_has_four_discs_in_a_cross() {
    let g = Game::new();
    assert_eq!(g.get((3, 3)), Some(Color::White));
    assert_eq!(g.get((4, 4)), Some(Color::White));
    assert_eq!(g.get((4, 3)), Some(Color::Black));
    assert_eq!(g.get((3, 4)), Some(Color::Black));
    let mut discs = 0;
    for y in 0..8 {
        for x in 0..8 {
            if g.get((x, y)).is_some() {
                discs += 1;
            }
        }
    }
    assert_eq!(discs, 4);
    assert_eq!(g.black_points(), 2);
    assert_eq!(g.white_points(), 2);
    assert_eq!(g.turn(), Color::Black);
    assert_eq!(g.passes(), 0);
    assert!(!g.is_terminal());
    assert_eq!(g.outcome(), None);
}

#[test]
fn opening_legal_moves_for_black() {
    let g = Game::new();
    let moves: Vec<Position> = g.find_puttable_positions();
    assert_eq!(moves, vec![(3, 2), (2, 3), (5, 4), (4, 5)]);
}

#[test]
fn black_at_2_3_flips_only_3_3() {
    let mut g = Game::new();
    assert_eq!(g.put((2, 3)), Ok(vec![(3, 3)]));
    assert_eq!(g.get((2, 3)), Some(Color::Black));
    assert_eq!(g.get((3, 3)), Some(Color::Black));
    assert_eq!(g.get((4, 4)), Some(Color::White));
    assert_eq!(g.black_points(), 4);
    assert_eq!(g.white_points(), 1);
    assert_eq!(g.turn(), Color::White);
    assert_eq!(g.passes(), 0);
}

#[test]
fn white_answers_along_the_diagonal() {
    let mut g = Game::new();
    assert!(g.put((2, 3)).is_ok());
    assert_eq!(g.put((2, 2)), Ok(vec![(3, 3)]));
    assert_eq!(g.get((3, 3)), Some(Color::White));
    assert_eq!(g.black_points(), 3);
    assert_eq!(g.white_points(), 3);
    assert_eq!(g.turn(), Color::Black);
}

#[test]
fn placement_adds_one_disc_in_total() {
    let mut g = Game::new();
    for mv in [(2, 3), (2, 2), (3, 2)] {
        let before = g.black_points() + g.white_points();
        let mover = g.turn();
        let mover_before = if mover == Color::Black { g.black_points() } else { g.white_points() };
        let flipped = g.put(mv).unwrap();
        assert_eq!(g.black_points() + g.white_points(), before + 1);
        let mover_after = if mover == Color::Black { g.black_points() } else { g.white_points() };
        assert_eq!(mover_after, mover_before + 1 + flipped.len() as i32);
    }
}

#[test]
fn captures_in_three_directions_at_once() {
    let mut g = Game::new();
    g.set_with_color((5, 7), Color::Black);
    g.set_with_color((7, 5), Color::Black);
    g.set_with_color((5, 5), Color::Black);
    g.set_with_color((6, 7), Color::White);
    g.set_with_color((7, 6), Color::White);
    g.set_with_color((6, 6), Color::White);
    assert_eq!(g.horizontal((7, 7)), vec![(6, 7)]);
    assert_eq!(g.vertical((7, 7)), vec![(7, 6)]);
    assert_eq!(g.diagonal((7, 7)), vec![(6, 6)]);
    assert_eq!(g.reversable_positions((7, 7)), vec![(6, 7), (7, 6), (6, 6)]);
    assert_eq!(g.put((7, 7)), Ok(vec![(6, 7), (7, 6), (6, 6)]));
    assert_eq!(g.black_points(), 9);
    assert_eq!(g.white_points(), 2);
    assert_eq!(g.get((6, 6)), Some(Color::Black));
}

#[test]
fn long_run_is_flipped_whole() {
    let mut g = Game::new();
    g.set_with_color((0, 7), Color::Black);
    g.set_with_color((1, 7), Color::White);
    g.set_with_color((2, 7), Color::White);
    assert_eq!(g.find_reversable_positions((3, 7), -1, 0), vec![(2, 7), (1, 7)]);
    assert_eq!(g.put((3, 7)), Ok(vec![(2, 7), (1, 7)]));
    assert_eq!(g.get((1, 7)), Some(Color::Black));
    assert_eq!(g.black_points(), 6);
    assert_eq!(g.white_points(), 2);
}

#[test]
fn run_ending_at_edge_or_gap_flips_nothing() {
    let mut g = Game::new();
    g.set_with_color((0, 0), Color::White);
    g.set_with_color((6, 0), Color::White);
    assert_eq!(g.find_reversable_positions((1, 0), -1, 0), Vec::<Position>::new());
    assert_eq!(g.find_reversable_positions((5, 0), 1, 0), Vec::<Position>::new());
    let before = snapshot(&g);
    assert_eq!(g.put((1, 0)), Err(PlaceError::NoFlips));
    assert_eq!(g.put((5, 0)), Err(PlaceError::NoFlips));
    assert_eq!(snapshot(&g), before);
}

#[test]
fn rejected_placements_leave_state_unchanged() {
    let mut g = Game::new();
    let before = snapshot(&g);
    assert_eq!(g.put((3, 3)), Err(PlaceError::AlreadyOccupied));
    assert_eq!(g.put((0, 0)), Err(PlaceError::NoFlips));
    assert_eq!(g.put((8, 0)), Err(PlaceError::OutOfRange));
    assert_eq!(g.put((0, 8)), Err(PlaceError::OutOfRange));
    assert_eq!(snapshot(&g), before);
}

#[test]
fn skip_refused_while_a_move_exists() {
    let mut g = Game::new();
    let before = snapshot(&g);
    assert_eq!(g.skip_turn(), Err(SkipError::MovesAvailable));
    assert_eq!(snapshot(&g), before);
}

#[test]
fn cell_among_own_discs_is_not_legal() {
    let mut g = all_black();
    assert_eq!(g.get((2, 3)), None);
    assert_eq!(g.reversable_positions((2, 3)), Vec::<Position>::new());
    assert!(g.find_puttable_positions().is_empty());
    assert_eq!(g.put((2, 3)), Err(PlaceError::NoFlips));
}

#[test]
fn two_forced_passes_end_the_game() {
    let mut g = all_black();
    assert_eq!(g.black_points(), 4);
    assert_eq!(g.white_points(), 0);
    assert!(g.black_points() + g.white_points() < 64);
    assert_eq!(g.skip_turn(), Ok(()));
    assert_eq!(g.turn(), Color::White);
    assert_eq!(g.passes(), 1);
    assert!(!g.is_terminal());
    assert_eq!(g.outcome(), None);
    assert_eq!(g.skip_turn(), Ok(()));
    assert_eq!(g.passes(), 2);
    assert!(g.is_terminal());
    assert_eq!(g.outcome(), Some(Outcome::Win(Color::Black)));
    let before = snapshot(&g);
    assert_eq!(g.skip_turn(), Err(SkipError::GameOver));
    assert!(g.put((2, 3)).is_err());
    assert_eq!(snapshot(&g), before);
}

#[test]
fn full_board_is_terminal() {
    let mut g = Game::new();
    let mut n = 0;
    for y in 0..8 {
        for x in 0..8 {
            if g.get((x, y)).is_none() {
                let c = if n % 2 == 0 { Color::Black } else { Color::White };
                g.set_with_color((x, y), c);
                n += 1;
            }
        }
    }
    assert_eq!(g.black_points(), 32);
    assert_eq!(g.white_points(), 32);
    assert!(g.is_terminal());
    assert_eq!(g.outcome(), Some(Outcome::Draw));
    assert_eq!(g.skip_turn(), Err(SkipError::GameOver));
    assert_eq!(g.put((0, 0)), Err(PlaceError::AlreadyOccupied));
}

#[test]
fn white_wins_with_more_discs() {
    let mut g = Game::new();
    g.set_with_color((4, 3), Color::White);
    g.decr_points(Color::Black);
    g.set_with_color((3, 4), Color::White);
    g.decr_points(Color::Black);
    assert_eq!(g.skip_turn(), Ok(()));
    assert_eq!(g.skip_turn(), Ok(()));
    assert_eq!(g.outcome(), Some(Outcome::Win(Color::White)));
}

#[test]
fn point_counters() {
    let mut g = Game::new();
    g.plus_points_with_color(5, Color::Black);
    assert_eq!(g.black_points(), 7);
    g.plus_points_with_color(-3, Color::White);
    assert_eq!(g.white_points(), -1);
    g.incr_points(Color::White);
    g.decr_points(Color::Black);
    assert_eq!(g.black_points(), 6);
    assert_eq!(g.white_points(), 0);
}

#[test]
fn set_writes_one_cell() {
    let mut g = Game::new();
    g.set((0, 0), Some(Color::White));
    assert_eq!(g.get((0, 0)), Some(Color::White));
    g.set((3, 3), None);
    assert_eq!(g.get((3, 3)), None);
    assert_eq!(g.black_points(), 2);
    assert_eq!(g.white_points(), 2);
}

#[test]
fn colors() {
    assert_eq!(Color::Black.another(), Color::White);
    assert_eq!(Color::White.another(), Color::Black);
    assert_eq!(Color::Black.to_s(), "b");
    assert_eq!(Color::White.to_s(), "w");
}
