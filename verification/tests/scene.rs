use maze_game::cell::{Cell, Position};
use maze_game::game::MazeGame;

fn at(x: usize, y: usize) -> Position {
    Position { x, y }
}

#[test]
fn scene_of_a_new_game() {
    let game = MazeGame::new(20, 15);
    let tiles = game.scene();
    assert_eq!(tiles.len(), 301);
    assert_eq!(tiles[0], (at(0, 0), Cell::Wall));
    assert_eq!(tiles[19], (at(19, 0), Cell::Wall));
    assert_eq!(tiles[20], (at(0, 1), Cell::Wall));
    assert_eq!(tiles[21], (at(1, 1), Cell::Start));
    assert_eq!(tiles[22], (at(2, 1), Cell::Empty));
    assert_eq!(tiles[299], (at(19, 14), Cell::Wall));
    assert_eq!(tiles[300], (at(1, 1), Cell::Player));
    let players = tiles.iter().filter(|t| t.1 == Cell::Player).count();
    assert_eq!(players, 1);
    assert!(tiles.contains(&(at(18, 13), Cell::End)));
}

#[test]
fn scene_of_a_small_game() {
    let game = MazeGame::new(4, 3);
    assert_eq!(
        game.scene(),
        vec![
            (at(0, 0), Cell::Wall),
            (at(1, 0), Cell::Wall),
            (at(2, 0), Cell::Wall),
            (at(3, 0), Cell::Wall),
            (at(0, 1), Cell::Wall),
            (at(1, 1), Cell::Start),
            (at(2, 1), Cell::End),
            (at(3, 1), Cell::Wall),
            (at(0, 2), Cell::Wall),
            (at(1, 2), Cell::Wall),
            (at(2, 2), Cell::Wall),
            (at(3, 2), Cell::Wall),
            (at(1, 1), Cell::Player),
        ]
    );
}

#[test]
fn scene_with_the_route_on_display() {
    let mut game = MazeGame::new(4, 5);
    game.display_path();
    let tiles = game.scene();
    assert_eq!(tiles.len(), 20 + 3 + 1);
    assert_eq!(tiles[5], (at(1, 1), Cell::Start));
    assert_eq!(tiles[20], (at(1, 2), Cell::Path));
    assert_eq!(tiles[21], (at(1, 3), Cell::Path));
    assert_eq!(tiles[22], (at(2, 3), Cell::Path));
    assert_eq!(tiles[23], (at(1, 1), Cell::Player));
}

#[test]
fn scene_leaves_the_route_out_under_the_player() {
    let mut game = MazeGame::new(4, 5);
    game.display_path();
    assert!(game.move_player(0, 1));
    let tiles = game.scene();
    assert_eq!(tiles.len(), 19 + 2 + 1);
    assert!(tiles.contains(&(at(1, 1), Cell::Start)));
    assert_eq!(tiles[19], (at(1, 3), Cell::Path));
    assert_eq!(tiles[20], (at(2, 3), Cell::Path));
    assert_eq!(tiles[21], (at(1, 2), Cell::Player));
    assert_eq!(tiles.iter().filter(|t| t.0 == at(1, 2)).count(), 1);
}

#[test]
fn scene_after_the_route_is_cleared() {
    let mut game = MazeGame::new(20, 15);
    game.display_path();
    assert_eq!(game.scene().len(), 300 + 29 + 1);
    game.clear_path();
    assert_eq!(game.scene().len(), 301);
    assert!(game.move_player(1, 0));
    assert_eq!(game.scene().len(), 300);
}
