//! Message vocabulary: what clients send, what the room sends back, and
//! the win conditions a room can be created with.

use vstd::prelude::*;

verus! {

/// How a game ends.
#[derive(Debug, Clone, Copy, PartialEq, Eq, Structural)]
pub enum WinCondition {
    Points { target_points: u16 },
    Cycles { target_cycles: u16 },
    CardsFinish,
}

/// The stages of a room's lifecycle.
#[derive(Debug, Clone, Copy, PartialEq, Eq, Structural)]
pub enum RoomStage {
    /// Waiting for players to join with the room code.
    Joining,
    /// The active player chooses a card and writes a description.
    ActiveChooses,
    /// The other players choose cards to match the description.
    PlayersChoose,
    /// Players vote on which center card is the active player's.
    Voting,
    /// Scores were computed; loops back to `ActiveChooses`.
    Results,
    /// Too few players to continue.
    Paused,
    /// The game is over.
    End,
}

/// Per-player bookkeeping.
#[derive(Debug, Clone, Copy, PartialEq, Eq, Structural)]
pub struct PlayerInfo {
    /// The player has a live connection.
    pub connected: bool,
    /// Cumulative score.
    pub points: u16,
    /// Stage-scoped readiness flag, reset on every stage change.
    pub ready: bool,
}

/// Per-observer bookkeeping.
#[derive(Debug, Clone, Copy, PartialEq, Eq, Structural)]
pub struct ObserverInfo {
    pub connected: bool,
    pub points: u16,
    /// The observer asked to play from the next round on.
    pub join_requested: bool,
    /// The observer is promoted automatically on the next round.
    pub auto_join_on_next_round: bool,
}

/// Everything a client may send after joining.
#[derive(Debug, Clone)]
pub enum ClientMsg {
    Ready {},
    StartGame {},
    LeaveRoom {},
    KickPlayer { player: String },
    SetModerator { player: String, enabled: bool },
    SetObserver { player: String, enabled: bool },
    SetAllowMidgameJoin { enabled: bool },
    ResumeGame {},
    RequestJoinFromObserver {},
    ActivePlayerChooseCard { card: String, description: String },
    PlayerChooseCard { card: String },
    Vote { card: String },
    Ping {},
}

/// The full self-sufficient room snapshot broadcast after every transition.
#[derive(Debug, Clone)]
pub struct RoomStateMsg {
    pub room_id: String,
    pub players: Vec<(String, PlayerInfo)>,
    pub observers: Vec<(String, ObserverInfo)>,
    pub creator: Option<String>,
    pub moderators: Vec<String>,
    pub stage: RoomStage,
    pub active_player: Option<String>,
    pub player_order: Vec<String>,
    pub round: u16,
    pub cards_remaining: u32,
    pub deck_refill_count: u32,
    pub win_condition: WinCondition,
    pub allow_new_players_midgame: bool,
    pub paused_reason: Option<String>,
}

/// Everything the room may send to a client.
#[derive(Debug, Clone)]
pub enum ServerMsg {
    RoomState(RoomStateMsg),
    StartRound { hand: Vec<String> },
    PlayersChoose { description: String, hand: Vec<String> },
    BeginVoting {
        center_cards: Vec<String>,
        description: String,
        disabled_card: Option<String>,
    },
    Results {
        player_to_vote: Vec<(String, String)>,
        player_to_current_card: Vec<(String, String)>,
        active_card: String,
        point_change: Vec<(String, u16)>,
    },
    ErrorMsg(String),
    LeftRoom { reason: String },
    Kicked { reason: String },
    InvalidRoomId {},
    EndGame {},
}

/// An outbound delivery produced by a state transition.  The caller owns
/// the sockets; the room only says who must receive what, in order.
#[derive(Debug, Clone)]
pub enum Outbound {
    /// To every subscriber of the room.
    Broadcast(ServerMsg),
    /// To the session currently registered under `name`.
    Direct { name: String, msg: ServerMsg },
    /// To the socket whose join is being handled.
    ToJoiner(ServerMsg),
}

/// A state transition that cannot make progress without corrupting the
/// room.  The session that triggered it is closed; the room survives.
#[derive(Debug, Clone, Copy, PartialEq, Eq, Structural)]
pub enum EngineError {
    /// The deck and discard pile cannot refill every hand.
    DeckExhausted,
}

/// Reject win conditions with a zero target.
pub fn validate_win_condition(win_condition: WinCondition) -> (r: Result<
    WinCondition,
    String,
>)
    ensures
        match r {
            Ok(w) => w == win_condition && (win_condition matches WinCondition::Points {
                target_points,
            } ==> target_points >= 1) && (win_condition matches WinCondition::Cycles {
                target_cycles,
            } ==> target_cycles >= 1),
            Err(_) => (win_condition matches WinCondition::Points { target_points }
                && target_points == 0) || (win_condition matches WinCondition::Cycles {
                target_cycles,
            } && target_cycles == 0),
        },
{
    match win_condition {
        WinCondition::Points { target_points } => {
            if target_points == 0 {
                Err(msg_target_points())
            } else {
                Ok(WinCondition::Points { target_points })
            }
        },
        WinCondition::Cycles { target_cycles } => {
            if target_cycles == 0 {
                Err(msg_target_cycles())
            } else {
                Ok(WinCondition::Cycles { target_cycles })
            }
        },
        WinCondition::CardsFinish => Ok(WinCondition::CardsFinish),
    }
}

fn msg_target_points() -> (r: String)
    ensures
        r@ == "target_points must be >= 1"@,
{
    let s: &str = "target_points must be >= 1";
    s.to_owned()
}

fn msg_target_cycles() -> (r: String)
    ensures
        r@ == "target_cycles must be >= 1"@,
{
    let s: &str = "target_cycles must be >= 1";
    s.to_owned()
}

} // verus!
