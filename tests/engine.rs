use std::collections::HashMap;

use snake_net::config::GameConfig;
use snake_net::coord::GameState_Coord;
use snake_net::direction::Direction;
use snake_net::player::{GamePlayer, IdGenerator, NodeRole, PlayerType};
use snake_net::snake::{GameState_Snake, SnakeState};
use snake_net::state::{EngineError, GameState};

fn c(x: i32, y: i32) -> GameState_Coord {
    GameState_Coord::new_custom(x, y)
}

fn player(id: i32, role: NodeRole) -> GamePlayer {
    GamePlayer::custom_new(format!("p{}", id), id, "127.0.0.1".to_string(), 9000 + id, role, PlayerType::Human, 0)
}

fn one_snake_game(x: i32, y: i32, foods: Vec<GameState_Coord>) -> GameState {
    GameState {
        state_order: 0,
        snakes: vec![GameState_Snake::new_custom(x, y, 1)],
        foods,
        players: vec![player(1, NodeRole::Master)],
    }
}

fn config(food_static: i32) -> GameConfig {
    GameConfig { width: 20, height: 20, food_static, state_delay_ms: 300 }
}

#[test]
fn opposite_directions() {
    assert_eq!(Direction::Up.opposite(), Direction::Down);
    assert_eq!(Direction::Down.opposite(), Direction::Up);
    assert_eq!(Direction::Left.opposite(), Direction::Right);
    assert_eq!(Direction::Right.opposite(), Direction::Left);
}

#[test]
fn deltas_of_directions() {
    assert_eq!(Direction::Up.get_delta(), c(0, -1));
    assert_eq!(Direction::Down.get_delta(), c(0, 1));
    assert_eq!(Direction::Left.get_delta(), c(-1, 0));
    assert_eq!(Direction::Right.get_delta(), c(1, 0));
}

#[test]
fn next_moves_inside_the_board() {
    assert_eq!(c(4, 2).next(&c(1, 0), 20, 20), c(5, 2));
    assert_eq!(c(4, 2).next_with_dir(Direction::Up, 20, 20), c(4, 1));
}

#[test]
fn next_wraps_at_the_outer_ring() {
    assert_eq!(c(18, 5).next(&c(1, 0), 20, 20), c(1, 5));
    assert_eq!(c(1, 5).next(&c(-1, 0), 20, 20), c(18, 5));
    assert_eq!(c(5, 1).next(&c(0, -1), 20, 10), c(5, 8));
    assert_eq!(c(5, 8).next(&c(0, 1), 20, 10), c(5, 1));
}

#[test]
fn jump_detection() {
    assert!(c(18, 5).check_next_for_jump(&c(1, 0), 20, 20));
    assert!(c(5, 1).check_next_for_jump(&c(0, -1), 20, 20));
    assert!(!c(5, 5).check_next_for_jump(&c(3, 0), 20, 20));
}

#[test]
fn reverse_negates() {
    assert_eq!(c(3, -2).reverse(), c(-3, 2));
}

#[test]
fn new_snake_shape() {
    let s = GameState_Snake::new_custom(4, 2, 7);
    assert_eq!(s.points, vec![c(4, 2), c(-1, 0)]);
    assert_eq!(s.player_id, 7);
    assert_eq!(s.head_direction, Direction::Right);
    assert_eq!(s.state, SnakeState::Alive);
    assert_eq!(*s.get_head_position(), c(4, 2));
    assert_eq!(s.get_tail_position(20, 20), c(3, 2));
}

#[test]
fn body_membership() {
    let s = GameState_Snake { player_id: 1, points: vec![c(5, 5), c(-3, 0), c(0, 2)], state: SnakeState::Alive, head_direction: Direction::Right };
    assert!(s.is_overlap(&c(5, 5), 20, 20));
    assert!(!s.is_overlap_except_head(&c(5, 5), 20, 20));
    assert!(s.has_point_except_head_unoptimized(&c(3, 5), 20, 20));
    assert!(s.has_point_except_head_unoptimized(&c(2, 7), 20, 20));
    assert!(!s.is_overlap(&c(3, 6), 20, 20));
    assert_eq!(s.get_tail_position(20, 20), c(2, 7));
}

#[test]
fn tail_after_a_wrap_is_on_the_body() {
    let s = GameState_Snake { player_id: 1, points: vec![c(1, 5), c(-1, 0)], state: SnakeState::Alive, head_direction: Direction::Right };
    assert_eq!(s.get_tail_position(20, 20), c(18, 5));
    assert!(s.is_overlap(&c(18, 5), 20, 20));
}

#[test]
fn move_forward_and_retract() {
    let mut s = GameState_Snake::new_custom(4, 2, 1);
    s.move_forward_except_tail(None, 20, 20);
    assert_eq!(s.points, vec![c(5, 2), c(-1, 0), c(-1, 0)]);
    s.move_tail();
    assert_eq!(s.points, vec![c(5, 2), c(-1, 0)]);
    assert_eq!(s.next_head_position(Some(Direction::Down), 20, 20), c(5, 3));
}

#[test]
fn move_tail_shortens_a_long_run() {
    let mut s = GameState_Snake { player_id: 1, points: vec![c(5, 5), c(0, 3)], state: SnakeState::Alive, head_direction: Direction::Up };
    s.move_tail();
    assert_eq!(s.points, vec![c(5, 5), c(0, 2)]);
}

#[test]
fn one_step_without_food_keeps_length() {
    let mut g = one_snake_game(4, 2, vec![]);
    let r = g.update_snakes(&HashMap::new(), &config(1));
    assert_eq!(r, Ok(()));
    assert_eq!(g.state_order, 1);
    assert_eq!(g.snakes[0].points[0], c(5, 2));
    assert_eq!(g.snakes[0].get_tail_position(20, 20), c(4, 2));
    assert_eq!(g.snakes[0].points.len(), 2);
    assert_eq!(g.foods.len(), 1);
}

#[test]
fn one_step_onto_food_grows_and_scores() {
    let mut g = one_snake_game(4, 2, vec![c(5, 2)]);
    let r = g.update_snakes(&HashMap::new(), &config(1));
    assert_eq!(r, Ok(()));
    assert_eq!(g.players[0].score, 1);
    assert_eq!(g.snakes[0].points.len(), 3);
    assert_eq!(g.snakes[0].points[0], c(5, 2));
    assert_eq!(g.snakes[0].get_tail_position(20, 20), c(3, 2));
    assert_eq!(g.foods.len(), 1);
    assert_ne!(g.foods[0], c(5, 2));
}

#[test]
fn eating_removes_exactly_that_food() {
    let mut g = one_snake_game(4, 2, vec![c(9, 9), c(5, 2), c(7, 7)]);
    let ate = g.move_snake(0, &HashMap::new(), 20, 20);
    assert!(ate);
    assert_eq!(g.foods, vec![c(9, 9), c(7, 7)]);
    assert_eq!(g.players[0].score, 1);
    assert_eq!(g.snakes[0].points.len(), 3);
}

#[test]
fn steering_turns_the_head() {
    let mut g = one_snake_game(4, 4, vec![]);
    let mut dirs = HashMap::new();
    dirs.insert(1, Direction::Down);
    g.update_snakes(&dirs, &config(0)).unwrap();
    assert_eq!(g.snakes[0].points[0], c(4, 5));
    assert_eq!(g.snakes[0].head_direction, Direction::Down);
}

#[test]
fn head_on_collision_kills_both() {
    let mut g = GameState {
        state_order: 3,
        snakes: vec![GameState_Snake::new_custom(4, 4, 1), GameState_Snake::new_custom(6, 4, 2)],
        foods: vec![],
        players: vec![player(1, NodeRole::Master), player(2, NodeRole::Normal)],
    };
    g.snakes[1].head_direction = Direction::Left;
    g.snakes[1].points[1] = c(1, 0);
    g.update_snakes(&HashMap::new(), &config(0)).unwrap();
    assert_eq!(g.snakes.len(), 0);
    assert_eq!(g.players[0].role, NodeRole::Viewer);
    assert_eq!(g.players[1].role, NodeRole::Viewer);
    assert_eq!(g.state_order, 4);
}

#[test]
fn running_into_a_body_kills_only_the_runner() {
    let mut g = GameState {
        state_order: 0,
        snakes: vec![GameState_Snake::new_custom(4, 4, 1), GameState_Snake::new_custom(6, 6, 2)],
        foods: vec![],
        players: vec![player(1, NodeRole::Master), player(2, NodeRole::Normal)],
    };
    // Snake 2 lies vertically across x = 6, from (6, 6) up to (6, 1).
    g.snakes[1].points = vec![c(6, 6), c(0, -5)];
    g.snakes[1].head_direction = Direction::Down;
    // Snake 1 heads right from (4, 4) and reaches (5, 4), then (6, 4).
    g.update_snakes(&HashMap::new(), &config(0)).unwrap();
    assert_eq!(g.snakes.len(), 2);
    g.update_snakes(&HashMap::new(), &config(0)).unwrap();
    assert_eq!(g.snakes.len(), 1);
    assert_eq!(g.snakes[0].player_id, 2);
    assert_eq!(g.players[0].role, NodeRole::Viewer);
    assert_eq!(g.players[1].role, NodeRole::Normal);
}

#[test]
fn restock_places_distinct_free_food() {
    let mut g = one_snake_game(4, 4, vec![]);
    g.update_snakes(&HashMap::new(), &config(5)).unwrap();
    assert_eq!(g.foods.len(), 5);
    for (i, f) in g.foods.iter().enumerate() {
        assert!(f.x >= 1 && f.x <= 18 && f.y >= 1 && f.y <= 18);
        assert!(!g.snakes[0].is_overlap(f, 20, 20));
        for other in g.foods.iter().skip(i + 1) {
            assert_ne!(f, other);
        }
    }
}

#[test]
fn full_board_is_reported() {
    let mut g = GameState {
        state_order: 0,
        snakes: vec![GameState_Snake::new_custom(1, 1, 1)],
        foods: vec![],
        players: vec![player(1, NodeRole::Master)],
    };
    let tiny = GameConfig { width: 3, height: 3, food_static: 1, state_delay_ms: 100 };
    assert_eq!(g.restock_food(&tiny), Err(EngineError::BoardFull));
    assert_eq!(g.foods.len(), 0);
}

#[test]
fn try_place_food_refuses_occupied_cells() {
    let mut g = one_snake_game(4, 4, vec![c(8, 8)]);
    assert!(!g.try_place_food(c(4, 4), 20, 20));
    assert!(!g.try_place_food(c(3, 4), 20, 20));
    assert!(!g.try_place_food(c(8, 8), 20, 20));
    assert!(g.try_place_food(c(9, 9), 20, 20));
    assert_eq!(g.foods, vec![c(8, 8), c(9, 9)]);
}

#[test]
fn kill_player_demotes_and_removes_snake() {
    let mut g = GameState {
        state_order: 0,
        snakes: vec![GameState_Snake::new_custom(4, 4, 1), GameState_Snake::new_custom(8, 8, 2)],
        foods: vec![],
        players: vec![player(1, NodeRole::Master), player(2, NodeRole::Normal)],
    };
    g.kill_player(2);
    assert_eq!(g.players[1].role, NodeRole::Viewer);
    assert_eq!(g.snakes.len(), 1);
    assert_eq!(g.snakes[0].player_id, 1);
}

#[test]
fn new_game_and_defaults() {
    let g = GameState::custom_default();
    assert_eq!(g.players.len(), 1);
    assert_eq!(g.players[0].role, NodeRole::Master);
    assert_eq!(g.players[0].name, "random");
    assert_eq!(g.snakes[0].points[0], c(2, 2));
    assert_eq!(g.foods, vec![c(3, 3)]);
    let d = GameConfig::default();
    assert_eq!((d.width, d.height, d.food_static, d.state_delay_ms), (40, 30, 1, 1000));
    let cd = GameConfig::custom_default();
    assert_eq!((cd.width, cd.height, cd.food_static, cd.state_delay_ms), (20, 20, 5, 300));
    assert_eq!(cd.master_timeout_ms(), 600);
}

#[test]
fn spawned_snakes_are_inside() {
    let mut g = GameState::new_custom("host".to_string(), "127.0.0.1".to_string(), 1);
    g.players.push(player(5, NodeRole::Normal));
    assert!(g.add_snake(5, &config(1)));
    let s = g.snakes.last().unwrap();
    assert_eq!(s.player_id, 5);
    let h = s.points[0];
    assert!(h.x >= 1 && h.x <= 18 && h.y >= 1 && h.y <= 18);
    assert!(!g.add_snake(5, &config(1)));
    assert!(!g.add_snake(77, &config(1)));
}

#[test]
fn add_snake_at_places_head() {
    let mut g = GameState::new_custom("host".to_string(), "127.0.0.1".to_string(), 1);
    g.players.push(player(5, NodeRole::Normal));
    assert!(g.add_snake_at(5, 10, 11, 20, 20));
    assert_eq!(g.snakes[1].points, vec![c(10, 11), c(-1, 0)]);
}

#[test]
fn id_generator_counts_up() {
    let mut ids = IdGenerator::new();
    assert_eq!(ids.generate_id(), 0);
    assert_eq!(ids.generate_id(), 1);
    let mut later = IdGenerator::starting_at(10);
    assert_eq!(later.generate_id(), 10);
}

#[test]
fn validity_check() {
    let g = GameState::new_custom("host".to_string(), "h".to_string(), 1);
    assert!(g.is_valid(20, 20));
    let mut bad = GameState::new_custom("host".to_string(), "h".to_string(), 1);
    bad.snakes[0].points.push(c(1, 1));
    assert!(!bad.is_valid(20, 20));
    let mut ring = GameState::new_custom("host".to_string(), "h".to_string(), 1);
    ring.foods.push(c(0, 5));
    assert!(!ring.is_valid(20, 20));
    let mut orphan = GameState::new_custom("host".to_string(), "h".to_string(), 1);
    orphan.players[0].role = NodeRole::Viewer;
    assert!(!orphan.is_valid(20, 20));
}

#[test]
fn one_step_keeps_unrelated_food() {
    let mut g = one_snake_game(4, 2, vec![c(10, 10)]);
    g.update_snakes(&HashMap::new(), &config(1)).unwrap();
    assert_eq!(g.snakes[0].points, vec![c(5, 2), c(-1, 0)]);
    assert_eq!(g.foods, vec![c(10, 10)]);
    assert_eq!(g.players[0].score, 0);
    assert_eq!(g.state_order, 1);
}

#[test]
fn restock_leaves_enough_food_alone() {
    let mut g = one_snake_game(4, 4, vec![c(9, 9), c(10, 10)]);
    assert_eq!(g.restock_food(&config(1)), Ok(()));
    assert_eq!(g.foods, vec![c(9, 9), c(10, 10)]);
}

#[test]
fn two_heads_on_one_food_feed_only_the_first() {
    let mut g = GameState {
        state_order: 0,
        snakes: vec![GameState_Snake::new_custom(4, 4, 1), GameState_Snake::new_custom(6, 4, 2)],
        foods: vec![c(5, 4)],
        players: vec![player(1, NodeRole::Master), player(2, NodeRole::Normal)],
    };
    g.snakes[1].head_direction = Direction::Left;
    g.snakes[1].points[1] = c(1, 0);
    g.move_snakes(&HashMap::new(), 20, 20);
    assert_eq!(g.snakes[0].points.len(), 3);
    assert_eq!(g.snakes[1].points.len(), 2);
    assert_eq!(g.players[0].score, 1);
    assert_eq!(g.players[1].score, 0);
    assert!(g.foods.is_empty());
}

#[test]
fn spawned_snake_shape() {
    let mut g = GameState::new_custom("host".to_string(), "127.0.0.1".to_string(), 1);
    g.players.push(player(5, NodeRole::Normal));
    assert!(g.add_snake(5, &config(1)));
    let s = g.snakes.last().unwrap();
    assert_eq!(s.points.len(), 2);
    assert_eq!(s.points[1], c(-1, 0));
    assert_eq!(s.head_direction, Direction::Right);
    assert_eq!(s.state, SnakeState::Alive);
}
