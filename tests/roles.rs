use std::collections::HashMap;

use snake_net::codec::Payload;
use snake_net::config::GameConfig;
use snake_net::direction::Direction;
use snake_net::codec::{JoinRequest, RoleChangeRequest};
use snake_net::node::{needs_ack, JoinError, Node, Reply};
use snake_net::peers::{should_transmit, HeardSet, PendingAcks, MAX_SEND_ATTEMPTS};
use snake_net::player::{GamePlayer, NodeRole, PlayerType};
use snake_net::snake::GameState_Snake;
use snake_net::state::GameState;

fn player(id: i32, role: NodeRole) -> GamePlayer {
    GamePlayer::custom_new(format!("p{}", id), id, "127.0.0.1".to_string(), 9000 + id, role, PlayerType::Human, 0)
}

fn two_player_game(second: NodeRole) -> GameState {
    GameState {
        state_order: 10,
        snakes: vec![GameState_Snake::new_custom(4, 4, 1), GameState_Snake::new_custom(10, 10, 2)],
        foods: vec![],
        players: vec![player(1, NodeRole::Master), player(2, second)],
    }
}

fn cfg() -> GameConfig {
    GameConfig { width: 20, height: 20, food_static: 0, state_delay_ms: 300 }
}

#[test]
fn reverse_steer_is_rejected_for_every_role() {
    for role in [NodeRole::Normal, NodeRole::Deputy, NodeRole::Master] {
        let g = two_player_game(role);
        assert!(!g.steer_validate(Direction::Left, 2));
        assert!(g.steer_validate(Direction::Up, 2));
        assert!(g.steer_validate(Direction::Right, 2));
    }
    let g = two_player_game(NodeRole::Normal);
    assert!(!g.steer_validate(Direction::Left, 1));
}

#[test]
fn viewer_steer_is_rejected() {
    let mut g = two_player_game(NodeRole::Normal);
    g.players[1].role = NodeRole::Viewer;
    assert!(!g.steer_validate(Direction::Up, 2));
}

#[test]
fn stale_snapshot_changes_nothing() {
    let mut g = two_player_game(NodeRole::Normal);
    let older = GameState { state_order: 9, snakes: vec![], foods: vec![], players: vec![] };
    assert!(!g.apply_state(older));
    assert_eq!(g.state_order, 10);
    assert_eq!(g.snakes.len(), 2);
    let equal = GameState { state_order: 10, snakes: vec![], foods: vec![], players: vec![] };
    assert!(!g.apply_state(equal));
    assert_eq!(g.players.len(), 2);
    let newer = GameState { state_order: 11, snakes: vec![], foods: vec![], players: vec![] };
    assert!(g.apply_state(newer));
    assert_eq!(g.state_order, 11);
    assert_eq!(g.snakes.len(), 0);
}

#[test]
fn deputy_takes_over_a_silent_master() {
    let mut node = Node::new_follower(two_player_game(NodeRole::Deputy), cfg(), 2, 1);
    assert!(node.master_window_elapsed());
    assert_eq!(node.master_id, 2);
    assert_eq!(node.state.players[0].role, NodeRole::Viewer);
    assert_eq!(node.state.players[1].role, NodeRole::Master);
    assert_eq!(node.state.snakes.len(), 1);
    assert_eq!(node.state.snakes[0].player_id, 2);
    assert!(node.is_master());
}

#[test]
fn deputy_stays_put_when_master_was_heard() {
    let mut node = Node::new_follower(two_player_game(NodeRole::Deputy), cfg(), 2, 1);
    node.heard.touch(1);
    assert!(!node.master_window_elapsed());
    assert_eq!(node.master_id, 1);
    assert_eq!(node.state.players[1].role, NodeRole::Deputy);
    assert_eq!(node.heard.ids.len(), 0);
}

#[test]
fn normal_player_never_takes_over() {
    let mut node = Node::new_follower(two_player_game(NodeRole::Normal), cfg(), 2, 1);
    assert!(!node.master_window_elapsed());
    assert_eq!(node.master_id, 1);
    assert_eq!(node.state.players[0].role, NodeRole::Master);
}

#[test]
fn master_ignores_role_change() {
    let mut node = Node::new_master(two_player_game(NodeRole::Normal), cfg(), 1);
    assert!(!node.on_role_change(2, Some(NodeRole::Master)));
    assert_eq!(node.master_id, 1);
    let mut follower = Node::new_follower(two_player_game(NodeRole::Normal), cfg(), 2, 1);
    assert!(follower.on_role_change(7, Some(NodeRole::Master)));
    assert_eq!(follower.master_id, 7);
    assert!(!follower.on_role_change(8, Some(NodeRole::Deputy)));
    assert_eq!(follower.master_id, 7);
}

#[test]
fn state_only_from_master_and_newer() {
    let mut node = Node::new_follower(two_player_game(NodeRole::Normal), cfg(), 2, 1);
    assert!(!node.on_state(2, two_player_game(NodeRole::Normal)));
    let mut newer = two_player_game(NodeRole::Normal);
    newer.state_order = 11;
    assert!(node.on_state(1, newer));
    assert_eq!(node.state.state_order, 11);
    let mut same = two_player_game(NodeRole::Normal);
    same.state_order = 11;
    assert!(!node.on_state(1, same));
}

#[test]
fn deputy_is_assigned_when_missing() {
    let mut g = two_player_game(NodeRole::Normal);
    assert_eq!(g.assign_deputy(), Some(1));
    assert_eq!(g.players[1].role, NodeRole::Deputy);
    assert_eq!(g.assign_deputy(), None);
}

#[test]
fn silent_players_are_demoted() {
    let mut g = two_player_game(NodeRole::Normal);
    g.demote_silent(&vec![], 1);
    assert_eq!(g.players[0].role, NodeRole::Master);
    assert_eq!(g.players[1].role, NodeRole::Viewer);
    assert_eq!(g.snakes.len(), 1);
    let mut h = two_player_game(NodeRole::Normal);
    h.demote_silent(&vec![2], 1);
    assert_eq!(h.players[1].role, NodeRole::Normal);
}

#[test]
fn master_turn_promotes_a_deputy() {
    let mut node = Node::new_master(two_player_game(NodeRole::Normal), cfg(), 1);
    node.heard.touch(2);
    node.on_steer(2, Direction::Down);
    let r = node.play_turn();
    assert_eq!(r, Ok(Some(1)));
    assert_eq!(node.state.state_order, 11);
    assert_eq!(node.state.players[1].role, NodeRole::Deputy);
    assert_eq!(node.state.snakes[1].head_direction, Direction::Down);
}

#[test]
fn validated_moves_drop_reversals() {
    let mut node = Node::new_master(two_player_game(NodeRole::Normal), cfg(), 1);
    node.on_steer(2, Direction::Left);
    node.on_steer(1, Direction::Up);
    let moves: HashMap<i32, Direction> = node.validated_moves();
    assert_eq!(moves.get(&2), None);
    assert_eq!(moves.get(&1), Some(&Direction::Up));
}

#[test]
fn join_admits_with_fresh_id() {
    let mut node = Node::new_master(GameState::new_custom("Ann".to_string(), "127.0.0.1".to_string(), 5000), cfg(), 1);
    let id = node
        .on_join(&"Ann Game".to_string(), "Bob".to_string(), PlayerType::Human, NodeRole::Normal, "127.0.0.1".to_string(), 5001)
        .unwrap();
    assert_eq!(id, 2);
    assert_eq!(node.state.players[1].name, "Bob");
    assert_eq!(node.state.players[1].role, NodeRole::Normal);
    assert_eq!(node.state.snakes.len(), 2);
    let err = node.on_join(&"Other Game".to_string(), "Eve".to_string(), PlayerType::Robot, NodeRole::Normal, "h".to_string(), 1);
    assert_eq!(err, Err(JoinError::WrongGame));
    assert_eq!(node.state.players.len(), 2);
}

#[test]
fn announcement_names_the_master() {
    let g = GameState::new_custom("Ann".to_string(), "127.0.0.1".to_string(), 5000);
    let a = g.generate_announcement(cfg());
    assert_eq!(a.game_name, "Ann Game");
    assert!(a.can_join);
    assert_eq!(a.players.len(), 1);
    let mut nobody = two_player_game(NodeRole::Normal);
    nobody.players[0].role = NodeRole::Normal;
    assert_eq!(nobody.generate_announcement(cfg()).game_name, "Unnamed Game");
}

#[test]
fn pending_acks_track_sends() {
    let mut p = PendingAcks::new();
    p.register(2, 10);
    p.register(2, 11);
    p.register(3, 10);
    assert!(p.is_pending(2, 10));
    assert!(p.acknowledge(2, 10));
    assert!(!p.is_pending(2, 10));
    assert!(p.is_pending(2, 11));
    assert!(!p.acknowledge(2, 10));
    p.forget(2);
    assert!(!p.is_pending(2, 11));
    assert!(p.is_pending(3, 10));
}

#[test]
fn retry_rule() {
    assert!(should_transmit(0, true));
    assert!(should_transmit(MAX_SEND_ATTEMPTS - 1, true));
    assert!(!should_transmit(MAX_SEND_ATTEMPTS, true));
    assert!(!should_transmit(0, false));
}

#[test]
fn heard_set_window() {
    let mut h = HeardSet::new();
    h.touch(4);
    h.touch(4);
    assert!(h.was_heard(4));
    assert_eq!(h.ids.len(), 1);
    h.clear();
    assert!(!h.was_heard(4));
}

#[test]
fn exhausted_counter_stops_the_turn() {
    let mut g = two_player_game(NodeRole::Normal);
    g.state_order = u64::MAX;
    let mut node = Node::new_master(g, cfg(), 1);
    assert_eq!(node.play_turn(), Err(snake_net::state::EngineError::CounterOverflow));
    assert_eq!(node.state.state_order, u64::MAX);
}

#[test]
fn join_refused_without_a_fresh_id() {
    let mut node = Node::new_follower(GameState::new_custom("Ann".to_string(), "127.0.0.1".to_string(), 5000), cfg(), 1, 1);
    node.ids = snake_net::player::IdGenerator::starting_at(1);
    let r = node.on_join(&"Ann Game".to_string(), "Bob".to_string(), PlayerType::Human, NodeRole::Normal, "h".to_string(), 2);
    assert_eq!(r, Err(JoinError::NoFreeId));
    assert_eq!(node.state.players.len(), 1);
}

#[test]
fn viewer_join_gets_no_snake() {
    let mut node = Node::new_master(GameState::new_custom("Ann".to_string(), "127.0.0.1".to_string(), 5000), cfg(), 1);
    let id = node.on_join(&"Ann Game".to_string(), "Eve".to_string(), PlayerType::Robot, NodeRole::Viewer, "h".to_string(), 3).unwrap();
    assert_eq!(node.state.players[1].id, id);
    assert_eq!(node.state.players[1].role, NodeRole::Viewer);
    assert_eq!(node.state.snakes.len(), 1);
}

#[test]
fn players_are_found_by_address() {
    let g = two_player_game(NodeRole::Normal);
    assert_eq!(g.find_player_by_address(&"127.0.0.1".to_string(), 9002), Some(2));
    assert_eq!(g.find_player_by_address(&"127.0.0.2".to_string(), 9002), None);
    assert_eq!(g.find_player_by_address(&"127.0.0.1".to_string(), 9003), None);
}

#[test]
fn acknowledgment_rule() {
    assert!(needs_ack(&Payload::Ping));
    assert!(needs_ack(&Payload::Steer(Direction::Up)));
    assert!(!needs_ack(&Payload::Ack));
    assert!(!needs_ack(&Payload::Announcement(vec![])));
}

#[test]
fn duplicate_copies_everything() {
    let g = two_player_game(NodeRole::Deputy);
    let d = g.duplicate();
    assert_eq!(d.state_order, g.state_order);
    assert_eq!(d.snakes.len(), 2);
    assert_eq!(d.snakes[1].points, g.snakes[1].points);
    assert_eq!(d.players[1].role, NodeRole::Deputy);
    assert_eq!(d.players[1].name, "p2");
}

#[test]
fn readiness_needs_a_sound_config_and_state() {
    let node = Node::new_master(two_player_game(NodeRole::Normal), cfg(), 1);
    assert!(node.is_ready());
    let bad = Node::new_master(two_player_game(NodeRole::Normal), GameConfig { width: 2, height: 20, food_static: 0, state_delay_ms: 1 }, 1);
    assert!(!bad.is_ready());
    let slow = Node::new_master(two_player_game(NodeRole::Normal), GameConfig { width: 20, height: 20, food_static: 0, state_delay_ms: 0 }, 1);
    assert!(!slow.is_ready());
}

#[test]
fn dispatch_routes_and_acknowledges() {
    let mut node = Node::new_master(two_player_game(NodeRole::Normal), cfg(), 1);
    let r = node.dispatch(Payload::Steer(Direction::Up), 5, Some(2), "127.0.0.1".to_string(), 9002);
    assert_eq!(r, Reply::Ack { to: 2 });
    assert!(node.heard.was_heard(2));
    assert_eq!(node.moves.get(&2), Some(&Direction::Up));
    assert_eq!(node.dispatch(Payload::Ping, 6, None, "10.0.0.9".to_string(), 1), Reply::Nothing);
    assert_eq!(node.dispatch(Payload::Discover, 7, None, "10.0.0.9".to_string(), 1), Reply::Announce);
    assert_eq!(node.dispatch(Payload::Announcement(vec![]), 8, Some(2), "127.0.0.1".to_string(), 9002), Reply::Nothing);
    node.pending.register(2, 40);
    assert_eq!(node.dispatch(Payload::Ack, 40, Some(2), "127.0.0.1".to_string(), 9002), Reply::Nothing);
    assert!(!node.pending.is_pending(2, 40));
}

#[test]
fn dispatch_admits_and_refuses_joins() {
    let mut node = Node::new_master(GameState::new_custom("Ann".to_string(), "127.0.0.1".to_string(), 5000), cfg(), 1);
    let join = |game: &str| JoinRequest {
        player_type: PlayerType::Human,
        player_name: "Bob".to_string(),
        game_name: game.to_string(),
        requested_role: NodeRole::Normal,
    };
    let r = node.dispatch(Payload::Join(join("Nope")), 1, None, "127.0.0.1".to_string(), 5001);
    assert_eq!(r, Reply::JoinRefused(JoinError::WrongGame));
    assert!(!node.heard.was_heard(2));
    let r = node.dispatch(Payload::Join(join("Ann Game")), 2, None, "127.0.0.1".to_string(), 5001);
    assert_eq!(r, Reply::JoinAccepted { id: 2 });
    assert_eq!(node.state.players[1].port, 5001);
    assert_eq!(node.state.snakes.len(), 2);
    let mut follower = Node::new_follower(two_player_game(NodeRole::Normal), cfg(), 2, 1);
    assert_eq!(follower.dispatch(Payload::Join(join("p1 Game")), 3, None, "h".to_string(), 1), Reply::Nothing);
    assert_eq!(follower.state.players.len(), 2);
}

#[test]
fn dispatch_takes_master_state_and_role_changes() {
    let mut node = Node::new_follower(two_player_game(NodeRole::Normal), cfg(), 2, 1);
    let mut newer = two_player_game(NodeRole::Normal);
    newer.state_order = 12;
    assert_eq!(node.dispatch(Payload::State(newer), 9, Some(1), "127.0.0.1".to_string(), 9001), Reply::Ack { to: 1 });
    assert_eq!(node.state.state_order, 12);
    let rc = RoleChangeRequest { sender_role: Some(NodeRole::Master), receiver_role: Some(NodeRole::Deputy) };
    assert_eq!(node.dispatch(Payload::RoleChange(rc), 10, Some(3), "127.0.0.1".to_string(), 9003), Reply::Ack { to: 3 });
    assert_eq!(node.master_id, 3);
}

#[test]
fn failover_changes_only_the_two_roles() {
    let mut g = two_player_game(NodeRole::Deputy);
    g.players.push(player(3, NodeRole::Normal));
    g.snakes.push(GameState_Snake::new_custom(15, 15, 3));
    g.foods.push(snake_net::coord::GameState_Coord::new_custom(7, 7));
    let mut node = Node::new_follower(g, cfg(), 2, 1);
    assert!(node.master_window_elapsed());
    assert_eq!(node.state.players[2].role, NodeRole::Normal);
    assert_eq!(node.state.state_order, 10);
    assert_eq!(node.state.foods.len(), 1);
    assert_eq!(node.state.snakes.len(), 2);
    assert_eq!(node.state.snakes[1].player_id, 3);
}
