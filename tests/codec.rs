use snake_net::codec::{decode, encode, Envelope, JoinRequest, MalformedMessage, Payload, RoleChangeRequest};
use snake_net::config::GameConfig;
use snake_net::direction::Direction;
use snake_net::player::{NodeRole, PlayerType};
use snake_net::state::GameState;

fn round_trip(e: &Envelope) -> Envelope {
    let bytes = encode(e);
    decode(&bytes).expect("decodes")
}

fn envelope(payload: Payload) -> Envelope {
    Envelope { msg_seq: 42, sender_id: Some(1), receiver_id: None, payload }
}

#[test]
fn ping_round_trip_with_unset_ids() {
    let e = Envelope { msg_seq: -5, sender_id: None, receiver_id: None, payload: Payload::Ping };
    let d = round_trip(&e);
    assert_eq!(d.msg_seq, -5);
    assert_eq!(d.sender_id, None);
    assert_eq!(d.receiver_id, None);
    assert!(matches!(d.payload, Payload::Ping));
}

#[test]
fn ack_round_trip_with_ids() {
    let e = Envelope { msg_seq: 7, sender_id: Some(1), receiver_id: Some(9), payload: Payload::Ack };
    let d = round_trip(&e);
    assert_eq!((d.msg_seq, d.sender_id, d.receiver_id), (7, Some(1), Some(9)));
    assert!(matches!(d.payload, Payload::Ack));
}

#[test]
fn steer_and_discover_round_trip() {
    let d = round_trip(&envelope(Payload::Steer(Direction::Left)));
    assert!(matches!(d.payload, Payload::Steer(Direction::Left)));
    let d = round_trip(&envelope(Payload::Discover));
    assert!(matches!(d.payload, Payload::Discover));
}

#[test]
fn state_round_trip() {
    let mut g = GameState::new_custom("Zoë".to_string(), "10.0.0.1".to_string(), 4242);
    g.state_order = 99;
    g.snakes[0].points.push(snake_net::coord::GameState_Coord::new_custom(0, -2));
    let d = round_trip(&envelope(Payload::State(g)));
    match d.payload {
        Payload::State(s) => {
            assert_eq!(s.state_order, 99);
            assert_eq!(s.players[0].name, "Zoë");
            assert_eq!(s.players[0].ip_address, "10.0.0.1");
            assert_eq!(s.players[0].port, 4242);
            assert_eq!(s.players[0].role, NodeRole::Master);
            assert_eq!(s.snakes[0].points.len(), 3);
            assert_eq!(s.snakes[0].points[2].y, -2);
            assert_eq!(s.foods.len(), 1);
        },
        _ => panic!("wrong payload"),
    }
}

#[test]
fn announcement_round_trip() {
    let g = GameState::new_custom("Ann".to_string(), "127.0.0.1".to_string(), 1);
    let a = g.generate_announcement(GameConfig::custom_default());
    let d = round_trip(&envelope(Payload::Announcement(vec![a])));
    match d.payload {
        Payload::Announcement(games) => {
            assert_eq!(games.len(), 1);
            assert_eq!(games[0].game_name, "Ann Game");
            assert_eq!(games[0].config, GameConfig::custom_default());
            assert!(games[0].can_join);
            assert_eq!(games[0].players[0].name, "Ann");
        },
        _ => panic!("wrong payload"),
    }
}

#[test]
fn join_round_trip() {
    let j = JoinRequest {
        player_type: PlayerType::Robot,
        player_name: "bot".to_string(),
        game_name: "Ann Game".to_string(),
        requested_role: NodeRole::Viewer,
    };
    let d = round_trip(&envelope(Payload::Join(j)));
    match d.payload {
        Payload::Join(j) => {
            assert_eq!(j.player_type, PlayerType::Robot);
            assert_eq!(j.player_name, "bot");
            assert_eq!(j.game_name, "Ann Game");
            assert_eq!(j.requested_role, NodeRole::Viewer);
        },
        _ => panic!("wrong payload"),
    }
}

#[test]
fn error_and_role_change_round_trip() {
    let d = round_trip(&envelope(Payload::Error("ошибка".to_string())));
    match d.payload {
        Payload::Error(m) => assert_eq!(m, "ошибка"),
        _ => panic!("wrong payload"),
    }
    let rc = RoleChangeRequest { sender_role: Some(NodeRole::Master), receiver_role: None };
    let d = round_trip(&envelope(Payload::RoleChange(rc)));
    match d.payload {
        Payload::RoleChange(r) => assert_eq!(r, rc),
        _ => panic!("wrong payload"),
    }
}

#[test]
fn exact_bytes_of_a_ping() {
    let e = Envelope { msg_seq: 1, sender_id: None, receiver_id: Some(2), payload: Payload::Ping };
    assert_eq!(encode(&e), vec![1, 0, 0, 0, 0, 0, 0, 0, 0, 1, 2, 0, 0, 0, 0]);
}

#[test]
fn malformed_input_is_rejected() {
    assert_eq!(decode(&[]).err(), Some(MalformedMessage));
    let mut bytes = encode(&envelope(Payload::Ack));
    bytes.push(0);
    assert_eq!(decode(&bytes).err(), Some(MalformedMessage));
    let bytes = encode(&envelope(Payload::Steer(Direction::Up)));
    assert_eq!(decode(&bytes[..bytes.len() - 1]).err(), Some(MalformedMessage));
    let mut bad_tag = encode(&envelope(Payload::Ping));
    let last = bad_tag.len() - 1;
    bad_tag[last] = 9;
    assert_eq!(decode(&bad_tag).err(), Some(MalformedMessage));
}
