use vstd::prelude::*;

verus! {

/// Role of a node in a game. The wire tags are NORMAL 0, MASTER 1,
/// DEPUTY 2, VIEWER 3.
#[derive(Clone, Copy, Debug, PartialEq, Eq, Structural)]
pub enum NodeRole {
    Normal,
    Master,
    Deputy,
    Viewer,
}

/// Who steers a player. The wire tags are HUMAN 0, ROBOT 1.
#[derive(Clone, Copy, Debug, PartialEq, Eq, Structural)]
pub enum PlayerType {
    Human,
    Robot,
}

/// A participant of a game; never removed, only demoted to viewer.
#[derive(Debug)]
pub struct GamePlayer {
    pub name: String,
    pub id: i32,
    pub ip_address: String,
    pub port: i32,
    pub role: NodeRole,
    pub player_type: PlayerType,
    pub score: i32,
}

impl GamePlayer {
    pub fn new_with_ip(name: String, id: i32, role: NodeRole, ip_address: String, port: i32) -> (r: GamePlayer)
        ensures
            r.name@ == name@,
            r.id == id,
            r.role == role,
            r.ip_address@ == ip_address@,
            r.port == port,
            r.player_type == PlayerType::Human,
            r.score == 0,
    {
        GamePlayer { name, id, ip_address, port, role, player_type: PlayerType::Human, score: 0 }
    }

    pub fn custom_new(
        name: String,
        id: i32,
        ip_address: String,
        port: i32,
        role: NodeRole,
        player_type: PlayerType,
        score: i32,
    ) -> (r: GamePlayer)
        ensures
            r.name@ == name@,
            r.id == id,
            r.ip_address@ == ip_address@,
            r.port == port,
            r.role == role,
            r.player_type == player_type,
            r.score == score,
    {
        GamePlayer { name, id, ip_address, port, role, player_type, score }
    }

    /// A field-by-field copy.
    pub fn duplicate(&self) -> (r: GamePlayer)
        ensures
            r.name@ == self.name@,
            r.id == self.id,
            r.ip_address@ == self.ip_address@,
            r.port == self.port,
            r.role == self.role,
            r.player_type == self.player_type,
            r.score == self.score,
    {
        GamePlayer {
            name: self.name.clone(),
            id: self.id,
            ip_address: self.ip_address.clone(),
            port: self.port,
            role: self.role,
            player_type: self.player_type,
            score: self.score,
        }
    }
}

/// Hands out player ids in increasing order.
#[derive(Debug)]
pub struct IdGenerator {
    pub next_id: i32,
}

impl IdGenerator {
    pub fn new() -> (r: IdGenerator)
        ensures
            r.next_id == 0,
    {
        IdGenerator { next_id: 0 }
    }

    /// Starts counting at `first`.
    pub fn starting_at(first: i32) -> (r: IdGenerator)
        ensures
            r.next_id == first,
    {
        IdGenerator { next_id: first }
    }

    pub fn generate_id(&mut self) -> (r: i32)
        requires
            old(self).next_id < i32::MAX,
        ensures
            r == old(self).next_id,
            final(self).next_id == old(self).next_id + 1,
    {
        let id = self.next_id;
        self.next_id = self.next_id + 1;
        id
    }
}

} // verus!
