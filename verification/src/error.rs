//! The rejections that the engine hands back in place of a result.
use vstd::prelude::*;

verus! {

/// The class of a rejection.
#[derive(Clone, Copy, Debug, PartialEq, Eq, Structural)]
pub enum ErrorKind {
    /// The command came from a player whose turn it is not.
    Turn,
    /// The action is not permitted in the current phase or at this point of the turn.
    Phase,
    /// The command names an index, a node, a road or a hexagon that cannot be used.
    Target,
    /// The ledger cannot pay, cannot hold more, or was handed the non-producing kind.
    Resource,
    /// The command does not have the shape that its action asks for.
    Structure,
}

/// Everything that can make the engine refuse an operation.
#[derive(Clone, Copy, Debug, PartialEq, Eq, Structural)]
pub enum GameError {
    PlayerKeyNotFound,
    NoActivePlayer,
    ActivePlayerNotInRoster,
    NotInSetupOrPlay,
    ConfigureOutsideBoot,
    NoTradeSpecified,
    InvalidRoadIndex,
    RoadOccupied,
    RoadNotConnected,
    InvalidNodeIndex,
    NodeOccupied,
    TwoSpaceRule,
    NodeNotConnected,
    DesertDeposit,
    DesertDeduct,
    InsufficientResources,
    ResourceLimit,
    TooManyPlayers,
    NotYourTurn,
    ActionNotAllowed,
    SetupSelection,
    SetupNotAdjacent,
    NoPlayerResources,
    NotASetupAction,
    ScorpionSelection,
    InvalidHexagonIndex,
    BugLimit,
    RoundLimit,
}

impl GameError {
    /// The class that a rejection belongs to.
    pub open spec fn kind_of(self) -> ErrorKind {
        match self {
            GameError::NotYourTurn => ErrorKind::Turn,
            GameError::NoActivePlayer
            | GameError::ActivePlayerNotInRoster
            | GameError::NotInSetupOrPlay
            | GameError::ConfigureOutsideBoot
            | GameError::TooManyPlayers
            | GameError::ActionNotAllowed
            | GameError::NotASetupAction
            | GameError::RoundLimit => ErrorKind::Phase,
            GameError::PlayerKeyNotFound
            | GameError::InvalidRoadIndex
            | GameError::RoadOccupied
            | GameError::RoadNotConnected
            | GameError::InvalidNodeIndex
            | GameError::NodeOccupied
            | GameError::TwoSpaceRule
            | GameError::NodeNotConnected
            | GameError::SetupNotAdjacent
            | GameError::InvalidHexagonIndex => ErrorKind::Target,
            GameError::DesertDeposit
            | GameError::DesertDeduct
            | GameError::InsufficientResources
            | GameError::ResourceLimit
            | GameError::NoPlayerResources
            | GameError::BugLimit => ErrorKind::Resource,
            GameError::NoTradeSpecified
            | GameError::SetupSelection
            | GameError::ScorpionSelection => ErrorKind::Structure,
        }
    }

    /// The class that this rejection belongs to.
    pub fn kind(&self) -> (k: ErrorKind)
        ensures
            k == self.kind_of(),
    {
        match self {
            GameError::NotYourTurn => ErrorKind::Turn,
            GameError::NoActivePlayer
            | GameError::ActivePlayerNotInRoster
            | GameError::NotInSetupOrPlay
            | GameError::ConfigureOutsideBoot
            | GameError::TooManyPlayers
            | GameError::ActionNotAllowed
            | GameError::NotASetupAction
            | GameError::RoundLimit => ErrorKind::Phase,
            GameError::PlayerKeyNotFound
            | GameError::InvalidRoadIndex
            | GameError::RoadOccupied
            | GameError::RoadNotConnected
            | GameError::InvalidNodeIndex
            | GameError::NodeOccupied
            | GameError::TwoSpaceRule
            | GameError::NodeNotConnected
            | GameError::SetupNotAdjacent
            | GameError::InvalidHexagonIndex => ErrorKind::Target,
            GameError::DesertDeposit
            | GameError::DesertDeduct
            | GameError::InsufficientResources
            | GameError::ResourceLimit
            | GameError::NoPlayerResources
            | GameError::BugLimit => ErrorKind::Resource,
            GameError::NoTradeSpecified
            | GameError::SetupSelection
            | GameError::ScorpionSelection => ErrorKind::Structure,
        }
    }

    /// The sentence that goes with a rejection.
    pub open spec fn text(self) -> Seq<char> {
        match self {
            GameError::PlayerKeyNotFound => "Player key not found!"@,
            GameError::NoActivePlayer => "There is no active player."@,
            GameError::ActivePlayerNotInRoster => "Cannot get index of active player!"@,
            GameError::NotInSetupOrPlay => "Can only take action during the Setup or Play phases!"@,
            GameError::ConfigureOutsideBoot => "Cannot configure game outside of boot phase!"@,
            GameError::NoTradeSpecified => "No resources were specified in the trade."@,
            GameError::InvalidRoadIndex => "Cannot build road; invalid road index."@,
            GameError::RoadOccupied => "Cannot build road; there is already something there."@,
            GameError::RoadNotConnected => "Roads have to be built next to other roads or buildings you own."@,
            GameError::InvalidNodeIndex => "Cannot make building; invalid node index."@,
            GameError::NodeOccupied => "Cannot make building; there is already something there."@,
            GameError::TwoSpaceRule => "Cannot make building; you must respect the two-space rule."@,
            GameError::NodeNotConnected => "Cannot make building; after initial setup you must build next to roads that you own."@,
            GameError::DesertDeposit => "Can't deposit Desert resources."@,
            GameError::DesertDeduct => "Can't deduct Desert resources."@,
            GameError::InsufficientResources => "Can't deduct; not enough resources."@,
            GameError::ResourceLimit => "Can't deposit; the ledger cannot hold more."@,
            GameError::TooManyPlayers => "Cannot add player; exceeds maximum number of players."@,
            GameError::NotYourTurn => "It is not your turn."@,
            GameError::ActionNotAllowed => "That is not an allowed action right now."@,
            GameError::SetupSelection => "Must select one node and one road during setup."@,
            GameError::SetupNotAdjacent => "Selected node and road must be next to each other."@,
            GameError::NoPlayerResources => "Can't get player resources."@,
            GameError::NotASetupAction => "That is not an allowed action during the Setup Phase."@,
            GameError::ScorpionSelection => "Must select one hexagon when moving the scorpion."@,
            GameError::InvalidHexagonIndex => "Cannot move scorpion; invalid hexagon index."@,
            GameError::BugLimit => "Cannot buy a bug; the count cannot go higher."@,
            GameError::RoundLimit => "Cannot end the turn; the round counter cannot go higher."@,
        }
    }

    /// The sentence that goes with this rejection.
    pub fn message(&self) -> (s: &'static str)
        ensures
            s@ == self.text(),
    {
        match self {
            GameError::PlayerKeyNotFound => "Player key not found!",
            GameError::NoActivePlayer => "There is no active player.",
            GameError::ActivePlayerNotInRoster => "Cannot get index of active player!",
            GameError::NotInSetupOrPlay => "Can only take action during the Setup or Play phases!",
            GameError::ConfigureOutsideBoot => "Cannot configure game outside of boot phase!",
            GameError::NoTradeSpecified => "No resources were specified in the trade.",
            GameError::InvalidRoadIndex => "Cannot build road; invalid road index.",
            GameError::RoadOccupied => "Cannot build road; there is already something there.",
            GameError::RoadNotConnected => "Roads have to be built next to other roads or buildings you own.",
            GameError::InvalidNodeIndex => "Cannot make building; invalid node index.",
            GameError::NodeOccupied => "Cannot make building; there is already something there.",
            GameError::TwoSpaceRule => "Cannot make building; you must respect the two-space rule.",
            GameError::NodeNotConnected => "Cannot make building; after initial setup you must build next to roads that you own.",
            GameError::DesertDeposit => "Can't deposit Desert resources.",
            GameError::DesertDeduct => "Can't deduct Desert resources.",
            GameError::InsufficientResources => "Can't deduct; not enough resources.",
            GameError::ResourceLimit => "Can't deposit; the ledger cannot hold more.",
            GameError::TooManyPlayers => "Cannot add player; exceeds maximum number of players.",
            GameError::NotYourTurn => "It is not your turn.",
            GameError::ActionNotAllowed => "That is not an allowed action right now.",
            GameError::SetupSelection => "Must select one node and one road during setup.",
            GameError::SetupNotAdjacent => "Selected node and road must be next to each other.",
            GameError::NoPlayerResources => "Can't get player resources.",
            GameError::NotASetupAction => "That is not an allowed action during the Setup Phase.",
            GameError::ScorpionSelection => "Must select one hexagon when moving the scorpion.",
            GameError::InvalidHexagonIndex => "Cannot move scorpion; invalid hexagon index.",
            GameError::BugLimit => "Cannot buy a bug; the count cannot go higher.",
            GameError::RoundLimit => "Cannot end the turn; the round counter cannot go higher.",
        }
    }
}

} // verus!
