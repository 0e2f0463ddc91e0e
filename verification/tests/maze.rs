use maze_game::cell::{Cell, Position};
use maze_game::game::MazeGame;

const PICTURE: [&str; 15] = [
    "####################",
    "#S                 #",
    "# ##### ##### ######",
    "# #   # #   # #   ##",
    "# # ### # ### # ####",
    "# #   # #   # #   ##",
    "# ##### ##### ######",
    "# #   #     #     ##",
    "# # # ##### # ######",
    "# # #     # #     ##",
    "# # ##### # ##### ##",
    "# #     # #     # ##",
    "# ##### # ##### # ##",
    "#       #       # E#",
    "####################",
];

fn at(x: usize, y: usize) -> Position {
    Position { x, y }
}

fn drawn(game: &MazeGame) -> Vec<String> {
    let mut rows = Vec::new();
    for y in 0..game.height() {
        let mut row = String::new();
        for x in 0..game.width() {
            row.push(match game.cell_at(at(x, y)) {
                Cell::Empty => ' ',
                Cell::Wall => '#',
                Cell::Start => 'S',
                Cell::End => 'E',
                Cell::Path => '.',
                Cell::Player => 'P',
            });
        }
        rows.push(row);
    }
    rows
}

fn default_route() -> Vec<Position> {
    let mut route = Vec::new();
    for x in 2..=13 {
        route.push(at(x, 1));
    }
    for y in 2..=9 {
        route.push(at(13, y));
    }
    for x in 14..=17 {
        route.push(at(x, 9));
    }
    for y in 10..=13 {
        route.push(at(17, y));
    }
    route.push(at(18, 13));
    route
}

fn walk(game: &mut MazeGame, route: &[Position]) {
    for next in route {
        let here = game.player_position();
        let dx = next.x as i32 - here.x as i32;
        let dy = next.y as i32 - here.y as i32;
        assert!(game.move_player(dx, dy));
        assert_eq!(game.player_position(), *next);
    }
}

#[test]
fn test_maze_creation() {
    let game = MazeGame::new(20, 15);
    assert_eq!(game.cell_at(at(1, 1)), Cell::Start);
    assert_eq!(game.cell_at(at(18, 13)), Cell::End);
}

#[test]
fn test_collision_detection() {
    let game = MazeGame::new(20, 15);
    assert!(!game.can_move(Position { x: 0, y: 0 }));
    assert!(game.can_move(Position { x: 1, y: 2 }));
}

#[test]
fn test_path_finding() {
    let game = MazeGame::new(20, 15);
    let path = game.find_shortest_path();
    assert!(path.is_some(), "应该能找到路径");
}

#[test]
fn default_grid_matches_the_picture() {
    let game = MazeGame::new(20, 15);
    let rows = drawn(&game);
    assert_eq!(rows.len(), 15);
    for y in 0..15 {
        assert_eq!(rows[y], PICTURE[y], "row {}", y);
    }
}

#[test]
fn new_game_starts_on_the_start() {
    let game = MazeGame::new(20, 15);
    assert_eq!(game.width(), 20);
    assert_eq!(game.height(), 15);
    assert_eq!(game.start_position(), at(1, 1));
    assert_eq!(game.end_position(), at(18, 13));
    assert_eq!(game.player_position(), at(1, 1));
    assert!(!game.has_won());
    assert!(!game.is_path_shown());
    assert!(game.current_path().is_empty());
}

#[test]
fn border_is_wall_for_many_sizes() {
    for (w, h) in [(3, 3), (3, 7), (4, 4), (5, 5), (10, 12), (20, 15), (21, 15), (20, 16), (33, 27)] {
        let game = MazeGame::new(w, h);
        for x in 0..w {
            assert_eq!(game.cell_at(at(x, 0)), Cell::Wall);
            assert_eq!(game.cell_at(at(x, h - 1)), Cell::Wall);
        }
        for y in 0..h {
            assert_eq!(game.cell_at(at(0, y)), Cell::Wall);
            assert_eq!(game.cell_at(at(w - 1, y)), Cell::Wall);
        }
    }
}

#[test]
fn one_start_and_one_end_at_construction() {
    for (w, h) in [(3, 4), (4, 3), (5, 5), (20, 15), (25, 18)] {
        let game = MazeGame::new(w, h);
        let mut players = 0;
        let mut starts = 0;
        let mut ends = 0;
        for y in 0..h {
            for x in 0..w {
                match game.cell_at(at(x, y)) {
                    Cell::Player => players += 1,
                    Cell::Start => starts += 1,
                    Cell::End => ends += 1,
                    _ => {}
                }
            }
        }
        assert_eq!(players, 0);
        assert_eq!(starts, 1);
        assert_eq!(ends, 1);
        assert_eq!(game.cell_at(at(1, 1)), Cell::Start);
        assert_eq!(game.cell_at(at(w - 2, h - 2)), Cell::End);
        assert_eq!(game.player_position(), at(1, 1));
    }
}

#[test]
fn start_shows_again_once_the_player_leaves() {
    let mut game = MazeGame::new(20, 15);
    assert_eq!(game.cell_at(at(1, 1)), Cell::Start);
    assert_eq!(game.cell_at(at(2, 1)), Cell::Empty);
    assert!(game.move_player(1, 0));
    assert_eq!(game.cell_at(at(1, 1)), Cell::Start);
    assert_eq!(game.cell_at(at(2, 1)), Cell::Player);
    assert!(game.move_player(1, 0));
    assert_eq!(game.cell_at(at(2, 1)), Cell::Empty);
    assert_eq!(game.cell_at(at(3, 1)), Cell::Player);
    assert!(game.move_player(-1, 0));
    assert!(game.move_player(-1, 0));
    assert_eq!(game.cell_at(at(1, 1)), Cell::Player);
    assert_eq!(game.cell_at(at(2, 1)), Cell::Empty);
}

#[test]
fn small_grid_is_an_empty_room() {
    let game = MazeGame::new(6, 5);
    let rows = drawn(&game);
    assert_eq!(rows, vec!["######", "#S   #", "#    #", "#   E#", "######"]);
}

#[test]
fn larger_grid_holds_the_template_in_its_corner() {
    let game = MazeGame::new(24, 17);
    let rows = drawn(&game);
    for y in 1..14 {
        let mut expected: String = PICTURE[y][..19].to_string();
        if y == 1 {
            expected = "#S                 ".to_string();
        }
        if y == 13 {
            expected = "#       #       #  ".to_string();
        }
        assert_eq!(&rows[y][..19], expected, "row {}", y);
        assert_eq!(&rows[y][19..], "    #", "row {}", y);
    }
    assert_eq!(rows[14], "#                      #");
    assert_eq!(rows[15], "#                     E#");
    assert_eq!(rows[16], "########################");
}

#[test]
fn can_move_rejects_walls_and_squares_outside() {
    let game = MazeGame::new(20, 15);
    assert!(!game.can_move(at(20, 1)));
    assert!(!game.can_move(at(1, 15)));
    assert!(!game.can_move(at(usize::MAX, usize::MAX)));
    assert!(!game.can_move(at(2, 2)));
    assert!(!game.can_move(at(19, 5)));
    assert!(game.can_move(at(1, 1)));
    assert!(game.can_move(at(18, 13)));
    assert!(game.can_move(at(3, 3)));
    for y in 0..15 {
        for x in 0..20 {
            let open = game.cell_at(at(x, y)) != Cell::Wall;
            assert_eq!(game.can_move(at(x, y)), open);
        }
    }
}

#[test]
fn right_then_down_from_the_start() {
    let mut game = MazeGame::new(20, 15);
    assert!(game.can_move(at(2, 1)));
    assert!(game.move_player(1, 0));
    assert_eq!(game.player_position(), at(2, 1));
    assert!(!game.can_move(at(2, 2)));
    assert!(!game.move_player(0, 1));
    assert_eq!(game.player_position(), at(2, 1));

    let mut room = MazeGame::new(6, 5);
    assert!(room.move_player(1, 0));
    assert!(room.move_player(0, 1));
    assert_eq!(room.player_position(), at(2, 2));
}

#[test]
fn wall_to_the_right_of_the_start_blocks() {
    let mut game = MazeGame::new(3, 4);
    assert_eq!(game.cell_at(at(2, 1)), Cell::Wall);
    assert!(!game.move_player(1, 0));
    assert_eq!(game.player_position(), at(1, 1));
    assert_eq!(game.cell_at(at(1, 1)), Cell::Start);
}

#[test]
fn blocked_moves_change_nothing() {
    let mut game = MazeGame::new(20, 15);
    let before = drawn(&game);
    assert!(!game.move_player(-1, 0));
    assert!(!game.move_player(0, -1));
    assert!(!game.move_player(-5, 0));
    assert!(!game.move_player(0, 100));
    assert!(!game.move_player(i32::MAX, i32::MAX));
    assert!(!game.move_player(i32::MIN, i32::MIN));
    assert_eq!(game.player_position(), at(1, 1));
    assert!(!game.has_won());
    assert_eq!(drawn(&game), before);
}

#[test]
fn moves_follow_the_offset_given() {
    let mut game = MazeGame::new(20, 15);
    assert_eq!(game.cell_at(at(1, 1)), Cell::Start);
    assert!(game.move_player(0, 0));
    assert_eq!(game.player_position(), at(1, 1));
    assert_eq!(game.cell_at(at(1, 1)), Cell::Player);
    assert!(game.move_player(2, 0));
    assert_eq!(game.player_position(), at(3, 1));
    assert!(game.move_player(0, 2));
    assert_eq!(game.player_position(), at(3, 3));
    assert_eq!(game.cell_at(at(3, 1)), Cell::Empty);
}

#[test]
fn player_always_stands_on_an_open_square() {
    let mut game = MazeGame::new(20, 15);
    let steps = [(1, 0), (0, 1), (1, 0), (0, -1), (-1, 0), (0, 1), (0, 1), (1, 0), (-1, 0), (0, -1)];
    assert!(game.can_move(game.player_position()));
    assert_eq!(game.cell_at(game.player_position()), Cell::Start);
    for round in 0..40 {
        let (dx, dy) = steps[(round * 7 + round / 3) % steps.len()];
        let before = game.player_position();
        let moved = game.move_player(dx, dy);
        if !moved {
            assert_eq!(game.player_position(), before);
        }
        assert!(game.can_move(game.player_position()));
        assert_eq!(game.cell_at(game.player_position()), Cell::Player);
    }
}

#[test]
fn default_route_is_the_least_one() {
    let game = MazeGame::new(20, 15);
    let path = game.find_shortest_path().unwrap();
    assert_eq!(path.len(), 29);
    assert_eq!(path, default_route());
    let mut before = at(1, 1);
    for p in &path {
        let dx = p.x.abs_diff(before.x);
        let dy = p.y.abs_diff(before.y);
        assert_eq!(dx + dy, 1);
        assert!(game.can_move(*p));
        before = *p;
    }
}

#[test]
fn route_does_not_depend_on_where_the_player_stands() {
    let mut game = MazeGame::new(20, 15);
    walk(&mut game, &default_route()[..7]);
    assert_eq!(game.find_shortest_path().unwrap(), default_route());
}

#[test]
fn routes_of_other_sizes() {
    assert_eq!(MazeGame::new(3, 3).find_shortest_path().unwrap(), Vec::<Position>::new());
    assert_eq!(MazeGame::new(3, 4).find_shortest_path().unwrap(), vec![at(1, 2)]);
    assert_eq!(MazeGame::new(4, 3).find_shortest_path().unwrap(), vec![at(2, 1)]);
    assert_eq!(
        MazeGame::new(5, 5).find_shortest_path().unwrap(),
        vec![at(1, 2), at(1, 3), at(2, 3), at(3, 3)]
    );
    assert_eq!(MazeGame::new(25, 18).find_shortest_path().unwrap().len(), 37);
    assert_eq!(MazeGame::new(20, 16).find_shortest_path().unwrap().len(), 30);
    assert_eq!(MazeGame::new(21, 15).find_shortest_path().unwrap().len(), 30);
    assert_eq!(MazeGame::new(30, 30).find_shortest_path().unwrap().len(), 54);
}

#[test]
fn every_size_has_a_route() {
    for w in 3..32 {
        for h in 3..26 {
            let path = MazeGame::new(w, h).find_shortest_path();
            assert!(path.is_some(), "{} x {}", w, h);
            let path = path.unwrap();
            assert_eq!(path.is_empty(), w == 3 && h == 3);
            if let Some(last) = path.last() {
                assert_eq!(*last, at(w - 2, h - 2));
            }
        }
    }
}

#[test]
fn toggling_twice_restores_the_display() {
    let mut game = MazeGame::new(20, 15);
    game.toggle_path();
    assert!(game.is_path_shown());
    assert_eq!(*game.current_path(), default_route());
    game.toggle_path();
    assert!(!game.is_path_shown());
    assert!(game.current_path().is_empty());
    game.toggle_path();
    let shown = game.current_path().clone();
    game.toggle_path();
    game.toggle_path();
    assert!(game.is_path_shown());
    assert_eq!(*game.current_path(), shown);
}

#[test]
fn display_and_clear() {
    let mut game = MazeGame::new(20, 15);
    game.clear_path();
    assert!(!game.is_path_shown());
    assert!(game.current_path().is_empty());
    game.display_path();
    assert!(game.is_path_shown());
    assert_eq!(game.current_path().len(), 29);
    game.display_path();
    assert!(game.is_path_shown());
    assert_eq!(*game.current_path(), default_route());
    game.clear_path();
    game.clear_path();
    assert!(!game.is_path_shown());
    assert!(game.current_path().is_empty());
}

#[test]
fn display_leaves_the_grid_alone() {
    let mut game = MazeGame::new(20, 15);
    let before = drawn(&game);
    game.display_path();
    assert_eq!(drawn(&game), before);
    assert_eq!(game.player_position(), at(1, 1));
}

#[test]
fn reaching_the_end_wins_and_ends_the_moves() {
    let mut game = MazeGame::new(20, 15);
    let route = default_route();
    walk(&mut game, &route[..28]);
    assert!(!game.has_won());
    walk(&mut game, &route[28..]);
    assert!(game.has_won());
    assert_eq!(game.player_position(), at(18, 13));
    assert_eq!(game.cell_at(at(18, 13)), Cell::Player);
    assert!(!game.move_player(-1, 0));
    assert!(!game.move_player(1, 0));
    assert!(!game.move_player(0, -1));
    assert!(!game.move_player(0, 1));
    assert!(!game.move_player(0, 0));
    assert!(game.has_won());
    assert_eq!(game.player_position(), at(18, 13));
    game.reset_game();
    assert!(!game.has_won());
    assert!(game.move_player(1, 0));
}

#[test]
fn another_way_to_the_end_wins_too() {
    let mut game = MazeGame::new(6, 5);
    for _ in 0..3 {
        assert!(game.move_player(1, 0));
    }
    assert!(game.move_player(0, 1));
    assert!(!game.has_won());
    assert!(game.move_player(0, 1));
    assert!(game.has_won());
    assert!(!game.move_player(0, -1));
}

#[test]
fn reset_restores_the_first_state() {
    let mut game = MazeGame::new(20, 15);
    let fresh = drawn(&game);
    walk(&mut game, &default_route()[..10]);
    game.display_path();
    game.reset_game();
    assert_eq!(game.player_position(), at(1, 1));
    assert!(!game.has_won());
    assert!(!game.is_path_shown());
    assert!(game.current_path().is_empty());
    assert_eq!(game.width(), 20);
    assert_eq!(game.height(), 15);
    assert_eq!(drawn(&game), fresh);

    walk(&mut game, &default_route());
    assert!(game.has_won());
    game.reset_game();
    assert_eq!(game.player_position(), at(1, 1));
    assert!(!game.has_won());
    assert_eq!(drawn(&game), fresh);
    assert_eq!(game.cell_at(at(1, 1)), Cell::Start);
    assert_eq!(game.cell_at(at(18, 13)), Cell::End);
}

#[test]
fn smallest_game_is_won_from_the_outset() {
    let mut game = MazeGame::new(3, 3);
    assert_eq!(game.start_position(), game.end_position());
    assert_eq!(game.player_position(), at(1, 1));
    assert!(game.has_won());
    assert_eq!(game.cell_at(at(1, 1)), Cell::Start);
    assert!(!game.move_player(0, 0));
    assert_eq!(game.cell_at(at(1, 1)), Cell::Start);
    game.reset_game();
    assert!(game.has_won());
    assert_eq!(game.cell_at(at(1, 1)), Cell::Start);
}
