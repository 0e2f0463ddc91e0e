use maze_game::cell::{Cell, Position};
use maze_game::layout::{base_cell_at, is_template_wall, TEMPLATE_HEIGHT, TEMPLATE_WIDTH};
use maze_game::search::{is_open, neighbor, shortest_route};

fn at(x: usize, y: usize) -> Position {
    Position { x, y }
}

fn grid(rows: &[&str]) -> Vec<Vec<Cell>> {
    rows.iter()
        .map(|row| {
            row.chars()
                .map(|ch| match ch {
                    '#' => Cell::Wall,
                    'S' => Cell::Start,
                    'E' => Cell::End,
                    'P' => Cell::Player,
                    '.' => Cell::Path,
                    _ => Cell::Empty,
                })
                .collect()
        })
        .collect()
}

#[test]
fn neighbor_in_each_direction() {
    assert_eq!(neighbor(at(5, 7), 0), Some(at(5, 6)));
    assert_eq!(neighbor(at(5, 7), 1), Some(at(5, 8)));
    assert_eq!(neighbor(at(5, 7), 2), Some(at(4, 7)));
    assert_eq!(neighbor(at(5, 7), 3), Some(at(6, 7)));
}

#[test]
fn neighbor_at_the_ends_of_the_range() {
    assert_eq!(neighbor(at(0, 0), 0), None);
    assert_eq!(neighbor(at(0, 0), 2), None);
    assert_eq!(neighbor(at(0, 0), 1), Some(at(0, 1)));
    assert_eq!(neighbor(at(0, 0), 3), Some(at(1, 0)));
    assert_eq!(neighbor(at(usize::MAX, usize::MAX), 1), None);
    assert_eq!(neighbor(at(usize::MAX, usize::MAX), 3), None);
    assert_eq!(neighbor(at(usize::MAX, usize::MAX), 0), Some(at(usize::MAX, usize::MAX - 1)));
}

#[test]
fn is_open_on_a_ragged_grid() {
    let g = grid(&["  #  ", "  #", "S.EP "]);
    assert!(is_open(&g, at(0, 0)));
    assert!(!is_open(&g, at(2, 0)));
    assert!(is_open(&g, at(4, 0)));
    assert!(!is_open(&g, at(3, 1)));
    assert!(!is_open(&g, at(0, 3)));
    assert!(is_open(&g, at(0, 2)));
    assert!(is_open(&g, at(1, 2)));
    assert!(is_open(&g, at(2, 2)));
    assert!(is_open(&g, at(3, 2)));
    assert!(!is_open(&g, at(5, 2)));
}

#[test]
fn unreachable_goal_gives_no_route() {
    let g = grid(&["#####", "#S#E#", "#####"]);
    assert_eq!(shortest_route(&g, at(1, 1), at(3, 1)), None);
}

#[test]
fn goal_behind_a_short_row_gives_no_route() {
    let g = grid(&["  #  ", "  #", "     "]);
    assert_eq!(shortest_route(&g, at(0, 0), at(4, 0)), None);
    assert_eq!(
        shortest_route(&g, at(0, 0), at(4, 2)),
        Some(vec![at(0, 1), at(0, 2), at(1, 2), at(2, 2), at(3, 2), at(4, 2)])
    );
}

#[test]
fn route_to_oneself_is_empty() {
    let g = grid(&["   ", "   "]);
    assert_eq!(shortest_route(&g, at(1, 1), at(1, 1)), Some(vec![]));
    assert_eq!(shortest_route(&g, at(9, 9), at(9, 9)), Some(vec![]));
}

#[test]
fn goal_outside_or_on_a_wall_gives_no_route() {
    let g = grid(&["   ", " # ", "   "]);
    assert_eq!(shortest_route(&g, at(0, 0), at(3, 0)), None);
    assert_eq!(shortest_route(&g, at(0, 0), at(1, 1)), None);
    assert_eq!(shortest_route(&Vec::new(), at(0, 0), at(0, 1)), None);
}

#[test]
fn start_need_not_be_open() {
    let g = grid(&["#  ", "   "]);
    assert_eq!(shortest_route(&g, at(0, 0), at(2, 0)), Some(vec![at(1, 0), at(2, 0)]));
    assert_eq!(shortest_route(&g, at(3, 1), at(0, 1)), Some(vec![at(2, 1), at(1, 1), at(0, 1)]));
}

#[test]
fn ties_go_up_then_down_then_left_then_right() {
    let room = grid(&["    ", "    ", "    "]);
    assert_eq!(
        shortest_route(&room, at(0, 0), at(3, 2)),
        Some(vec![at(0, 1), at(0, 2), at(1, 2), at(2, 2), at(3, 2)])
    );
    assert_eq!(
        shortest_route(&room, at(3, 2), at(0, 0)),
        Some(vec![at(3, 1), at(3, 0), at(2, 0), at(1, 0), at(0, 0)])
    );
    assert_eq!(
        shortest_route(&room, at(0, 2), at(3, 0)),
        Some(vec![at(0, 1), at(0, 0), at(1, 0), at(2, 0), at(3, 0)])
    );
    assert_eq!(
        shortest_route(&room, at(3, 0), at(0, 2)),
        Some(vec![at(3, 1), at(3, 2), at(2, 2), at(1, 2), at(0, 2)])
    );
}

#[test]
fn route_goes_round_a_wall() {
    let g = grid(&["S#E", " # ", "   "]);
    assert_eq!(
        shortest_route(&g, at(0, 0), at(2, 0)),
        Some(vec![at(0, 1), at(0, 2), at(1, 2), at(2, 2), at(2, 1), at(2, 0)])
    );
}

#[test]
fn marks_other_than_walls_do_not_block() {
    let g = grid(&["SP.E"]);
    assert_eq!(shortest_route(&g, at(0, 0), at(3, 0)), Some(vec![at(1, 0), at(2, 0), at(3, 0)]));
}

#[test]
fn template_is_the_picture() {
    let picture = [
        "####################",
        "#S                 #",
        "# ##### ##### ######",
        "# #   # #   # #   ##",
        "# # ### # ### # ####",
        "# #   # #   # #   ##",
        "# ##### ##### ######",
        "# #   #     #     ##",
        "# # # ##### # ######",
        "# # #     # #     ##",
        "# # ##### # ##### ##",
        "# #     # #     # ##",
        "# ##### # ##### # ##",
        "#       #       # E#",
        "####################",
    ];
    assert_eq!(TEMPLATE_WIDTH, 20);
    assert_eq!(TEMPLATE_HEIGHT, 15);
    for y in 1..14 {
        let row: Vec<char> = picture[y].chars().collect();
        for x in 1..19 {
            assert_eq!(is_template_wall(x, y), row[x] == '#', "({}, {})", x, y);
        }
    }
    assert!(!is_template_wall(0, 0));
    assert!(!is_template_wall(2, 14));
    assert!(!is_template_wall(19, 2));
}

#[test]
fn base_cells() {
    assert_eq!(base_cell_at(20, 15, 1, 1), Cell::Start);
    assert_eq!(base_cell_at(20, 15, 18, 13), Cell::End);
    assert_eq!(base_cell_at(20, 15, 0, 0), Cell::Wall);
    assert_eq!(base_cell_at(20, 15, 19, 14), Cell::Wall);
    assert_eq!(base_cell_at(20, 15, 2, 2), Cell::Wall);
    assert_eq!(base_cell_at(20, 15, 1, 2), Cell::Empty);
    assert_eq!(base_cell_at(19, 15, 2, 2), Cell::Empty);
    assert_eq!(base_cell_at(20, 14, 2, 2), Cell::Empty);
    assert_eq!(base_cell_at(40, 40, 2, 2), Cell::Wall);
    assert_eq!(base_cell_at(40, 40, 19, 2), Cell::Empty);
    assert_eq!(base_cell_at(40, 40, 2, 14), Cell::Empty);
    assert_eq!(base_cell_at(3, 3, 1, 1), Cell::Start);
    assert_eq!(base_cell_at(3, 4, 1, 2), Cell::End);
}
