use reversi::{Color, Reversi, Winner};

fn cells_of(game: &Reversi) -> Vec<Option<Color>> {
    let mut out = Vec::new();
    for y in 0..8u8 {
        for x in 0..8u8 {
            out.push(game.get_color(x, y));
        }
    }
    out
}

fn sorted(mut v: Vec<(u8, u8)>) -> Vec<(u8, u8)> {
    v.sort();
    v
}

fn position(discs: &[(u8, u8, Color)], player: Color) -> Reversi {
    let mut cells: Vec<Option<Color>> = vec![None; 64];
    for &(x, y, c) in discs {
        cells[8 * y as usize + x as usize] = Some(c);
    }
    Reversi::from_cells(&cells, player).unwrap()
}

#[test]
fn opening_position() {
    let game = Reversi::init();
    assert_eq!(game.get_player(), Color::Black);
    assert_eq!(game.get_color(3, 3), Some(Color::White));
    assert_eq!(game.get_color(4, 3), Some(Color::Black));
    assert_eq!(game.get_color(3, 4), Some(Color::Black));
    assert_eq!(game.get_color(4, 4), Some(Color::White));
    assert_eq!(game.count(Color::Black), 2);
    assert_eq!(game.count(Color::White), 2);
    assert_eq!(cells_of(&game).iter().filter(|c| c.is_some()).count(), 4);
}

#[test]
fn opening_legal_moves_for_black() {
    let game = Reversi::init();
    assert_eq!(
        sorted(game.puttable_points(&Color::Black)),
        vec![(2, 3), (3, 2), (4, 5), (5, 4)]
    );
}

#[test]
fn opening_legal_moves_for_white() {
    let game = Reversi::init();
    assert_eq!(
        sorted(game.puttable_points(&Color::White)),
        vec![(2, 4), (3, 5), (4, 2), (5, 3)]
    );
}

#[test]
fn legal_moves_are_empty_cells() {
    let mut game = Reversi::init();
    assert!(game.put(2, 3, Color::Black));
    for side in [Color::Black, Color::White] {
        for (x, y) in game.puttable_points(&side) {
            assert_eq!(game.get_color(x, y), None);
        }
    }
}

#[test]
fn simple_capture() {
    let mut game = Reversi::init();
    assert!(game.put(2, 3, Color::Black));
    assert_eq!(game.get_color(2, 3), Some(Color::Black));
    assert_eq!(game.get_color(3, 3), Some(Color::Black));
    assert_eq!(game.get_color(4, 3), Some(Color::Black));
    assert_eq!(game.get_color(3, 4), Some(Color::Black));
    assert_eq!(game.get_color(4, 4), Some(Color::White));
    assert_eq!(game.count(Color::Black), 4);
    assert_eq!(game.count(Color::White), 1);
}

#[test]
fn move_adds_exactly_one_disc() {
    let mut game = Reversi::init();
    let before = game.count(Color::Black) + game.count(Color::White);
    assert!(game.put(2, 3, Color::Black));
    assert_eq!(game.count(Color::Black) + game.count(Color::White), before + 1);
    assert!(game.put(2, 2, Color::White));
    assert_eq!(game.count(Color::Black) + game.count(Color::White), before + 2);
}

#[test]
fn capture_in_several_directions() {
    let game_discs = [
        (1, 2, Color::White),
        (0, 2, Color::Black),
        (3, 2, Color::White),
        (4, 2, Color::Black),
        (2, 1, Color::White),
        (2, 0, Color::Black),
        (3, 3, Color::White),
        (4, 4, Color::White),
        (5, 5, Color::Black),
        (2, 3, Color::White),
    ];
    let mut game = position(&game_discs, Color::Black);
    assert!(game.put(2, 2, Color::Black));
    assert_eq!(game.get_color(1, 2), Some(Color::Black));
    assert_eq!(game.get_color(3, 2), Some(Color::Black));
    assert_eq!(game.get_color(2, 1), Some(Color::Black));
    assert_eq!(game.get_color(3, 3), Some(Color::Black));
    assert_eq!(game.get_color(4, 4), Some(Color::Black));
    // no black disc closes the run going down
    assert_eq!(game.get_color(2, 3), Some(Color::White));
    assert_eq!(game.count(Color::Black), 10);
    assert_eq!(game.count(Color::White), 1);
}

#[test]
fn run_reaching_the_edge_is_not_captured() {
    let mut game = position(
        &[(1, 0, Color::White), (2, 0, Color::White), (0, 1, Color::White), (0, 2, Color::Black)],
        Color::Black,
    );
    assert!(game.put(0, 0, Color::Black));
    assert_eq!(game.get_color(0, 1), Some(Color::Black));
    assert_eq!(game.get_color(1, 0), Some(Color::White));
    assert_eq!(game.get_color(2, 0), Some(Color::White));
}

#[test]
fn illegal_occupied_cell() {
    let mut game = Reversi::init();
    let before = cells_of(&game);
    assert!(!game.put(3, 3, Color::Black));
    assert!(!game.put(4, 3, Color::Black));
    assert_eq!(cells_of(&game), before);
    assert_eq!(game.count(Color::Black), 2);
    assert_eq!(game.count(Color::White), 2);
}

#[test]
fn illegal_no_capture() {
    let mut game = Reversi::init();
    let before = cells_of(&game);
    assert!(!game.put(2, 2, Color::Black));
    assert!(!game.put(0, 0, Color::Black));
    assert!(!game.put(5, 5, Color::Black));
    assert_eq!(cells_of(&game), before);
}

#[test]
fn illegal_off_board() {
    let mut game = Reversi::init();
    let before = cells_of(&game);
    assert!(!game.put(8, 3, Color::Black));
    assert!(!game.put(3, 200, Color::Black));
    assert_eq!(cells_of(&game), before);
    assert_eq!(game.get_color(8, 0), None);
}

#[test]
fn forced_pass() {
    let mut game = position(&[(0, 0, Color::White), (1, 0, Color::Black)], Color::Black);
    assert!(game.puttable_points(&Color::Black).is_empty());
    assert_eq!(game.puttable_points(&Color::White), vec![(2, 0)]);
    assert!(!game.is_game_over());
    assert_eq!(game.get_winner(), None);
    game.change_player();
    assert_eq!(game.get_player(), Color::White);
    let player = game.get_player();
    assert!(game.put(2, 0, player));
    assert_eq!(game.get_color(1, 0), Some(Color::White));
    assert!(game.is_game_over());
    assert_eq!(game.get_winner(), Some(Winner::White));
}

#[test]
fn draw_on_full_board() {
    let mut cells = Vec::new();
    for i in 0..64 {
        cells.push(Some(if i < 32 { Color::Black } else { Color::White }));
    }
    let game = Reversi::from_cells(&cells, Color::Black).unwrap();
    assert!(game.is_game_over());
    assert_eq!(game.count(Color::Black), 32);
    assert_eq!(game.count(Color::White), 32);
    assert_eq!(game.get_winner(), Some(Winner::Draw));
}

#[test]
fn winner_on_full_board() {
    let mut cells = Vec::new();
    for i in 0..64 {
        cells.push(Some(if i < 33 { Color::Black } else { Color::White }));
    }
    let game = Reversi::from_cells(&cells, Color::White).unwrap();
    assert_eq!(game.get_winner(), Some(Winner::Black));
}

#[test]
fn winner_before_board_is_full() {
    let game = position(&[(0, 0, Color::Black), (7, 7, Color::Black), (3, 3, Color::White)], Color::White);
    assert!(game.is_game_over());
    assert_eq!(game.get_winner(), Some(Winner::Black));
}

#[test]
fn no_winner_while_moves_remain() {
    let game = Reversi::init();
    assert!(!game.is_game_over());
    assert_eq!(game.get_winner(), None);
}

#[test]
fn change_player_alternates() {
    let mut game = Reversi::init();
    game.change_player();
    assert_eq!(game.get_player(), Color::White);
    game.change_player();
    assert_eq!(game.get_player(), Color::Black);
}

#[test]
fn update_by_put_flips_without_placing() {
    let mut game = Reversi::init();
    game.update_by_put(2, 3, Color::Black);
    assert_eq!(game.get_color(2, 3), None);
    assert_eq!(game.get_color(3, 3), Some(Color::Black));
    assert_eq!(game.count(Color::Black), 3);
    assert_eq!(game.count(Color::White), 1);
}

#[test]
fn from_cells_needs_64_cells() {
    assert!(Reversi::from_cells(&vec![None; 63], Color::Black).is_none());
    assert!(Reversi::from_cells(&vec![None; 65], Color::Black).is_none());
}

#[test]
fn legal_moves_listed_once() {
    // (2,2) captures in two directions; it is listed once
    let game = position(
        &[(3, 2, Color::White), (4, 2, Color::Black), (2, 3, Color::White), (2, 4, Color::Black)],
        Color::Black,
    );
    let moves = game.puttable_points(&Color::Black);
    assert_eq!(moves.iter().filter(|p| **p == (2, 2)).count(), 1);
}

#[test]
fn update_by_put_off_board_changes_nothing() {
    let mut game = Reversi::init();
    let before = cells_of(&game);
    game.update_by_put(8, 3, Color::White);
    assert_eq!(cells_of(&game), before);
}

#[test]
fn game_played_to_the_end_has_a_winner() {
    let mut game = Reversi::init();
    let mut turns = 0;
    while !game.is_game_over() {
        let player = game.get_player();
        let moves = game.puttable_points(&player);
        if let Some(&(x, y)) = moves.first() {
            let before = game.count(Color::Black) + game.count(Color::White);
            assert!(game.put(x, y, player));
            assert_eq!(game.count(Color::Black) + game.count(Color::White), before + 1);
        }
        game.change_player();
        turns += 1;
        assert!(turns < 200);
    }
    let black = game.count(Color::Black);
    let white = game.count(Color::White);
    let expected = if black > white {
        Winner::Black
    } else if white > black {
        Winner::White
    } else {
        Winner::Draw
    };
    assert_eq!(game.get_winner(), Some(expected));
}
