//! The rules of the game, as a function from a state and a command to the next state.
use crate::error::GameError;
use crate::games::base::players::{PlayerView, PlayersView};
use crate::games::base::Phase;
use crate::games::hexagon::actions::{
    allowed_after, node_build_outcome, node_owned_by, road_build_outcome, road_owned_by, Actions,
    CommandView, Target,
};
use crate::games::hexagon::board::{BoardView, NodeView, RoadView};
use crate::games::hexagon::bonuses::title_after;
use crate::games::hexagon::resources::{Resource, ResourceList};
use crate::search::count_matching;
use vstd::prelude::*;

verus! {

/// What is chosen before a game starts: how many play, how many villages win, and how
/// wide the board is.
#[derive(Clone, Copy, Debug, PartialEq, Eq, Structural)]
pub struct Config {
    pub num_players: usize,
    pub score_to_win: u8,
    pub game_board_width: u8,
}

/// A game as contracts see it. The colours, ledgers and bug counts stand in seating
/// order, one for each player.
pub struct IslandView {
    pub phase: Phase,
    pub round: nat,
    pub players: PlayersView,
    pub last_action: Actions,
    pub config: Config,
    pub roll_result: (u8, u8),
    pub player_colors: Seq<Seq<char>>,
    pub player_resources: Seq<ResourceList>,
    pub bugs: Seq<u8>,
    pub has_most_bugs: Option<Seq<char>>,
    pub board: BoardView,
    pub the_winner: Option<Seq<char>>,
}

/// The price of a road.
pub open spec fn road_price() -> Seq<Resource> {
    seq![Resource::Block, Resource::Timber]
}

/// The price of a village.
pub open spec fn village_price() -> Seq<Resource> {
    seq![Resource::Block, Resource::Timber, Resource::Fiber, Resource::Cereal]
}

/// The price of a bug.
pub open spec fn bug_price() -> Seq<Resource> {
    seq![Resource::Rock, Resource::Fiber, Resource::Cereal]
}

/// The ledgers after the first `upto` units of production have been paid out, and the
/// reason why paying stopped, if it did: a unit for a key that no player has, or for a
/// ledger that cannot hold it. What was paid before stays paid.
pub open spec fn paid_out(
    players: PlayersView,
    ledgers: Seq<ResourceList>,
    spoils: Seq<(Seq<char>, Resource)>,
    upto: int,
) -> (Seq<ResourceList>, Option<GameError>)
    decreases upto,
{
    if upto <= 0 {
        (ledgers, None)
    } else {
        let (paid, stopped) = paid_out(players, ledgers, spoils, upto - 1);
        if stopped is Some {
            (paid, stopped)
        } else {
            match players.seat_of_key(spoils[upto - 1].0) {
                None => (paid, Some(GameError::NoPlayerResources)),
                Some(seat) => if seat >= paid.len() {
                    (paid, Some(GameError::NoPlayerResources))
                } else {
                    match paid[seat].deposited(seq![spoils[upto - 1].1]) {
                        Ok(fuller) => (paid.update(seat, fuller), None),
                        Err(e) => (paid, Some(e)),
                    }
                },
            }
        }
    }
}

/// A ledger and the roads after the first `upto` of the roads asked for have been dealt
/// with, and the reason why building stopped, if it did. Each road is paid for when it
/// has been built; what was built before building stopped stays built and paid.
pub open spec fn roads_built(
    ledger: ResourceList,
    nodes: Seq<NodeView>,
    roads: Seq<RoadView>,
    key: Seq<char>,
    asked: Seq<usize>,
    upto: int,
) -> (ResourceList, Seq<RoadView>, Option<GameError>)
    decreases upto,
{
    if upto <= 0 {
        (ledger, roads, None)
    } else {
        let (purse, built, stopped) = roads_built(ledger, nodes, roads, key, asked, upto - 1);
        if stopped is Some {
            (purse, built, stopped)
        } else if !purse.covers(road_price()) {
            (purse, built, Some(GameError::InsufficientResources))
        } else {
            match road_build_outcome(asked[upto - 1] as int, key, nodes, built, false) {
                Err(e) => (purse, built, Some(e)),
                Ok(more) => (purse.minus(road_price()), more, None),
            }
        }
    }
}

/// A ledger and the nodes after the first `upto` of the villages asked for have been
/// dealt with, and the reason why building stopped, if it did.
pub open spec fn nodes_built(
    ledger: ResourceList,
    nodes: Seq<NodeView>,
    roads: Seq<RoadView>,
    key: Seq<char>,
    asked: Seq<usize>,
    upto: int,
) -> (ResourceList, Seq<NodeView>, Option<GameError>)
    decreases upto,
{
    if upto <= 0 {
        (ledger, nodes, None)
    } else {
        let (purse, built, stopped) = nodes_built(ledger, nodes, roads, key, asked, upto - 1);
        if stopped is Some {
            (purse, built, stopped)
        } else if !purse.covers(village_price()) {
            (purse, built, Some(GameError::InsufficientResources))
        } else {
            match node_build_outcome(asked[upto - 1] as int, key, built, roads, false) {
                Err(e) => (purse, built, Some(e)),
                Ok(more) => (purse.minus(village_price()), more, None),
            }
        }
    }
}

/// Once paying has stopped it stays stopped: later units change nothing.
pub proof fn lemma_paid_out_stops(
    players: PlayersView,
    ledgers: Seq<ResourceList>,
    spoils: Seq<(Seq<char>, Resource)>,
    at: int,
    upto: int,
)
    requires
        at <= upto,
        paid_out(players, ledgers, spoils, at).1 is Some,
    ensures
        paid_out(players, ledgers, spoils, upto) == paid_out(players, ledgers, spoils, at),
    decreases upto - at,
{
    if at < upto {
        lemma_paid_out_stops(players, ledgers, spoils, at, upto - 1);
    }
}

/// Once building roads has stopped it stays stopped.
pub proof fn lemma_roads_built_stops(
    ledger: ResourceList,
    nodes: Seq<NodeView>,
    roads: Seq<RoadView>,
    key: Seq<char>,
    asked: Seq<usize>,
    at: int,
    upto: int,
)
    requires
        at <= upto,
        roads_built(ledger, nodes, roads, key, asked, at).2 is Some,
    ensures
        roads_built(ledger, nodes, roads, key, asked, upto) == roads_built(
            ledger,
            nodes,
            roads,
            key,
            asked,
            at,
        ),
    decreases upto - at,
{
    if at < upto {
        lemma_roads_built_stops(ledger, nodes, roads, key, asked, at, upto - 1);
    }
}

/// Once building villages has stopped it stays stopped.
pub proof fn lemma_nodes_built_stops(
    ledger: ResourceList,
    nodes: Seq<NodeView>,
    roads: Seq<RoadView>,
    key: Seq<char>,
    asked: Seq<usize>,
    at: int,
    upto: int,
)
    requires
        at <= upto,
        nodes_built(ledger, nodes, roads, key, asked, at).2 is Some,
    ensures
        nodes_built(ledger, nodes, roads, key, asked, upto) == nodes_built(
            ledger,
            nodes,
            roads,
            key,
            asked,
            at,
        ),
    decreases upto - at,
{
    if at < upto {
        lemma_nodes_built_stops(ledger, nodes, roads, key, asked, at, upto - 1);
    }
}

/// Building roads changes who owns them and nothing else: as many roads as before, each
/// between the same two nodes.
pub proof fn lemma_roads_built_keeps_shape(
    ledger: ResourceList,
    nodes: Seq<NodeView>,
    roads: Seq<RoadView>,
    key: Seq<char>,
    asked: Seq<usize>,
    upto: int,
)
    ensures
        roads_built(ledger, nodes, roads, key, asked, upto).1.len() == roads.len(),
        forall|j: int|
            0 <= j < roads.len() ==> (#[trigger] roads_built(
                ledger,
                nodes,
                roads,
                key,
                asked,
                upto,
            ).1[j]).inds == roads[j].inds,
    decreases upto,
{
    if upto > 0 {
        lemma_roads_built_keeps_shape(ledger, nodes, roads, key, asked, upto - 1);
    }
}

/// Building villages changes who owns the nodes and what stands on them, and nothing
/// else: as many nodes as before, each where it was.
pub proof fn lemma_nodes_built_keeps_shape(
    ledger: ResourceList,
    nodes: Seq<NodeView>,
    roads: Seq<RoadView>,
    key: Seq<char>,
    asked: Seq<usize>,
    upto: int,
)
    ensures
        nodes_built(ledger, nodes, roads, key, asked, upto).1.len() == nodes.len(),
        forall|j: int|
            0 <= j < nodes.len() ==> (#[trigger] nodes_built(
                ledger,
                nodes,
                roads,
                key,
                asked,
                upto,
            ).1[j]).loc == nodes[j].loc,
    decreases upto,
{
    if upto > 0 {
        lemma_nodes_built_keeps_shape(ledger, nodes, roads, key, asked, upto - 1);
    }
}

/// The number of nodes that the player with this key owns.
pub open spec fn villages_of(nodes: Seq<NodeView>, key: Seq<char>) -> nat {
    count_matching(nodes, node_owned_by(key))
}

/// The number of roads that the player with this key owns.
pub open spec fn roads_of_player(roads: Seq<RoadView>, key: Seq<char>) -> nat {
    count_matching(roads, road_owned_by(key))
}

/// The winner after the first `upto` players have been looked at, in seating order: each
/// player with enough villages takes the place of whoever was recorded before.
pub open spec fn winner_among(
    list: Seq<PlayerView>,
    nodes: Seq<NodeView>,
    score_to_win: int,
    recorded: Option<Seq<char>>,
    upto: int,
) -> Option<Seq<char>>
    decreases upto,
{
    if upto <= 0 {
        recorded
    } else {
        let before = winner_among(list, nodes, score_to_win, recorded, upto - 1);
        if villages_of(nodes, list[upto - 1].key) >= score_to_win {
            Some(list[upto - 1].key)
        } else {
            before
        }
    }
}

/// The bug counts with the keys of the players they belong to.
pub open spec fn bugs_by_key(list: Seq<PlayerView>, bugs: Seq<u8>) -> Seq<(Seq<char>, nat)> {
    Seq::new(bugs.len(), |i: int| (list[i].key, bugs[i] as nat))
}

impl IslandView {
    /// What holds of every game: the roster and the board keep their invariants, every
    /// player has a colour, a ledger and a bug count, and the last roll is one that two
    /// dice can show, or no roll at all.
    pub open spec fn wf(self) -> bool {
        &&& self.players.wf()
        &&& self.board.wf()
        &&& self.player_colors.len() == self.players.list.len()
        &&& self.player_resources.len() == self.players.list.len()
        &&& self.bugs.len() == self.players.list.len()
        &&& self.roll_result.0 <= 6
        &&& self.roll_result.1 <= 6
    }

    /// The sum of the last roll.
    pub open spec fn roll_sum(self) -> int {
        self.roll_result.0 + self.roll_result.1
    }

    /// The actions open to the player with this key.
    pub open spec fn allowed_for(self, key: Seq<char>) -> Seq<Actions> {
        match self.players.active_player {
            None => Seq::empty(),
            Some(active) => if active.key != key {
                seq![Actions::NoAction]
            } else if self.phase is Setup {
                seq![Actions::PlaceVillageAndRoad]
            } else if self.phase is Play {
                allowed_after(self.last_action, self.roll_sum())
            } else {
                seq![Actions::NoAction]
            },
        }
    }

    /// Whether every player owns exactly `n` nodes and exactly `n` roads.
    pub open spec fn all_have(self, n: nat) -> bool {
        forall|i: int|
            0 <= i < self.players.list.len() ==> villages_of(
                self.board.nodes,
                (#[trigger] self.players.list[i]).key,
            ) == n && roads_of_player(self.board.roads, self.players.list[i].key) == n
    }

    /// Whether every player owns a node and a road.
    pub open spec fn all_have_some(self) -> bool {
        forall|i: int|
            0 <= i < self.players.list.len() ==> villages_of(
                self.board.nodes,
                (#[trigger] self.players.list[i]).key,
            ) >= 1 && roads_of_player(self.board.roads, self.players.list[i].key) >= 1
    }

    /// The winner on record after every player's villages have been counted.
    pub open spec fn winner_found(self) -> Option<Seq<char>> {
        winner_among(
            self.players.list,
            self.board.nodes,
            self.config.score_to_win as int,
            self.the_winner,
            self.players.list.len() as int,
        )
    }

    /// Why a command is turned away before the phase is looked at: nobody has the turn,
    /// or the command comes from somebody else.
    pub open spec fn refusal(self, command: CommandView) -> Option<GameError> {
        match self.players.active_player {
            None => Some(GameError::NoActivePlayer),
            Some(active) => if command.player != active.key {
                Some(GameError::NotYourTurn)
            } else {
                None
            },
        }
    }

    /// The game after the turn has gone to the next player. The round is counted on when
    /// the turn comes back to the first seat.
    pub open spec fn after_next_player(self) -> (IslandView, Result<(), GameError>) {
        match self.players.rotated(1) {
            Err(e) => (self, Err(e)),
            Ok(players) => if players.active_seat() == Some(0int) {
                if self.round >= u16::MAX {
                    (self, Err(GameError::RoundLimit))
                } else {
                    (IslandView { players, round: self.round + 1, ..self }, Ok(()))
                }
            } else {
                (IslandView { players, ..self }, Ok(()))
            },
        }
    }

    /// The game after a village and a road have been placed during setup.
    ///
    /// The command must name one node and one road, and the road must end at the node.
    /// The village is built first and the road after it, neither needing anything of the
    /// player's nearby; the village keeps its distance from other buildings all the same.
    /// Where the village can be built and the road cannot, the village stays.
    pub open spec fn after_placement(self, command: CommandView) -> (
        IslandView,
        Result<(), GameError>,
    ) {
        let (villages, node) = command.first(Target::Node);
        let (roads, road) = command.first(Target::Road);
        if self.last_action != Actions::NoAction && self.last_action != Actions::EndTurn {
            (self, Err(GameError::ActionNotAllowed))
        } else if villages != 1 || roads != 1 {
            (self, Err(GameError::SetupSelection))
        } else if road >= self.board.roads.len() {
            (self, Err(GameError::InvalidRoadIndex))
        } else if self.board.roads[road as int].inds.0 != node && self.board.roads[road as int].inds.1
            != node {
            (self, Err(GameError::SetupNotAdjacent))
        } else {
            match node_build_outcome(
                node as int,
                command.player,
                self.board.nodes,
                self.board.roads,
                true,
            ) {
                Err(e) => (self, Err(e)),
                Ok(nodes) => match road_build_outcome(
                    road as int,
                    command.player,
                    nodes,
                    self.board.roads,
                    true,
                ) {
                    Err(e) => (
                        IslandView { board: BoardView { nodes, ..self.board }, ..self },
                        Err(e),
                    ),
                    Ok(roads) => (
                        IslandView {
                            board: BoardView { nodes, roads, ..self.board },
                            last_action: Actions::PlaceVillageAndRoad,
                            ..self
                        },
                        Ok(()),
                    ),
                },
            }
        }
    }

    /// The game after a turn of setup has ended.
    ///
    /// While some player has placed nothing the turn goes forward; once all have placed
    /// once it stays for one turn and then goes backward; once all have placed twice the
    /// board pays out for every hexagon and play begins.
    pub open spec fn after_setup_turn(self) -> (IslandView, Result<(), GameError>) {
        if self.last_action != Actions::PlaceVillageAndRoad {
            (self, Err(GameError::ActionNotAllowed))
        } else if self.all_have(1) {
            (IslandView { last_action: Actions::EndTurn, ..self }, Ok(()))
        } else if self.all_have(2) {
            if self.round >= u16::MAX {
                (self, Err(GameError::RoundLimit))
            } else {
                let spoils = self.board.production(None);
                let (ledgers, stopped) = paid_out(
                    self.players,
                    self.player_resources,
                    spoils,
                    spoils.len() as int,
                );
                match stopped {
                    Some(e) => (IslandView { player_resources: ledgers, ..self }, Err(e)),
                    None => (
                        IslandView {
                            player_resources: ledgers,
                            phase: self.phase.successor(),
                            round: self.round + 1,
                            last_action: Actions::EndTurn,
                            ..self
                        },
                        Ok(()),
                    ),
                }
            }
        } else if self.all_have_some() {
            match self.players.rotated(-1) {
                Err(e) => (self, Err(e)),
                Ok(players) => (
                    IslandView { players, last_action: Actions::EndTurn, ..self },
                    Ok(()),
                ),
            }
        } else {
            match self.after_next_player() {
                (_, Err(e)) => (self, Err(e)),
                (next, Ok(_)) => (IslandView { last_action: Actions::EndTurn, ..next }, Ok(())),
            }
        }
    }

    /// The game after the dice have shown `roll`. On a seven nothing is produced.
    pub open spec fn after_roll(self, roll: (u8, u8)) -> (IslandView, Result<(), GameError>) {
        let rolled = IslandView { roll_result: roll, ..self };
        if roll.0 + roll.1 == 7 {
            (IslandView { last_action: Actions::RollDice, ..rolled }, Ok(()))
        } else {
            let spoils = self.board.production(Some((roll.0 + roll.1) as u8));
            let (ledgers, stopped) = paid_out(
                self.players,
                self.player_resources,
                spoils,
                spoils.len() as int,
            );
            match stopped {
                Some(e) => (IslandView { player_resources: ledgers, ..rolled }, Err(e)),
                None => (
                    IslandView {
                        player_resources: ledgers,
                        last_action: Actions::RollDice,
                        ..rolled
                    },
                    Ok(()),
                ),
            }
        }
    }

    /// The game after the roads and then the villages that a command asks for have been
    /// built, one by one, each paid for as it is built. Building stops at the first that
    /// cannot be paid or built; what was built before stays.
    pub open spec fn after_building(self, command: CommandView) -> (
        IslandView,
        Result<(), GameError>,
    ) {
        match self.players.seat_of_key(command.player) {
            None => (self, Err(GameError::NoPlayerResources)),
            Some(seat) => {
                let asked_roads = command.all(Target::Road);
                let asked_nodes = command.all(Target::Node);
                let (purse, roads, stopped) = roads_built(
                    self.player_resources[seat],
                    self.board.nodes,
                    self.board.roads,
                    command.player,
                    asked_roads,
                    asked_roads.len() as int,
                );
                let with_roads = IslandView {
                    player_resources: self.player_resources.update(seat, purse),
                    board: BoardView { roads, ..self.board },
                    ..self
                };
                match stopped {
                    Some(e) => (with_roads, Err(e)),
                    None => {
                        let (purse, nodes, stopped) = nodes_built(
                            purse,
                            self.board.nodes,
                            roads,
                            command.player,
                            asked_nodes,
                            asked_nodes.len() as int,
                        );
                        let with_nodes = IslandView {
                            player_resources: self.player_resources.update(seat, purse),
                            board: BoardView { roads, nodes, ..self.board },
                            ..self
                        };
                        match stopped {
                            Some(e) => (with_nodes, Err(e)),
                            None => (
                                IslandView {
                                    the_winner: with_nodes.winner_found(),
                                    last_action: Actions::BuildStuff,
                                    ..with_nodes
                                },
                                Ok(()),
                            ),
                        }
                    },
                }
            },
        }
    }

    /// The game after the scorpion has been moved.
    pub open spec fn after_scorpion(self, command: CommandView) -> (
        IslandView,
        Result<(), GameError>,
    ) {
        let (named, hexagon) = command.first(Target::Hex);
        if named != 1 {
            (self, Err(GameError::ScorpionSelection))
        } else if hexagon >= self.board.hexagons.len() {
            (self, Err(GameError::InvalidHexagonIndex))
        } else {
            (
                IslandView {
                    board: BoardView { scorpion_index: Some(hexagon as int), ..self.board },
                    last_action: Actions::MoveScorpion,
                    ..self
                },
                Ok(()),
            )
        }
    }

    /// The game after a trade of three for one.
    pub open spec fn after_trade(self, command: CommandView) -> (
        IslandView,
        Result<(), GameError>,
    ) {
        match self.players.seat_of_key(command.player) {
            None => (self, Err(GameError::NoPlayerResources)),
            Some(seat) => match command.trade {
                None => (self, Err(GameError::NoTradeSpecified)),
                Some((have, want)) => match self.player_resources[seat].traded(have, want) {
                    Err(e) => (self, Err(e)),
                    Ok(ledger) => (
                        IslandView {
                            player_resources: self.player_resources.update(seat, ledger),
                            last_action: Actions::Trade,
                            ..self
                        },
                        Ok(()),
                    ),
                },
            },
        }
    }

    /// The game after a bug has been bought.
    pub open spec fn after_bug(self, command: CommandView) -> (IslandView, Result<(), GameError>) {
        match self.players.seat_of_key(command.player) {
            None => (self, Err(GameError::NoPlayerResources)),
            Some(seat) => if !self.player_resources[seat].covers(bug_price()) {
                (self, Err(GameError::InsufficientResources))
            } else if self.bugs[seat] >= u8::MAX {
                (self, Err(GameError::BugLimit))
            } else {
                let bugs = self.bugs.update(seat, (self.bugs[seat] + 1) as u8);
                let bought = IslandView {
                    player_resources: self.player_resources.update(
                        seat,
                        self.player_resources[seat].minus(bug_price()),
                    ),
                    bugs,
                    has_most_bugs: title_after(
                        bugs_by_key(self.players.list, bugs),
                        self.has_most_bugs,
                    ),
                    ..self
                };
                (
                    IslandView {
                        the_winner: bought.winner_found(),
                        last_action: Actions::BuyBug,
                        ..bought
                    },
                    Ok(()),
                )
            },
        }
    }

    /// The game after a turn of play has ended: over if a winner is on record, else with
    /// the next player.
    pub open spec fn after_turn(self) -> (IslandView, Result<(), GameError>) {
        match self.the_winner {
            Some(_) => (
                IslandView {
                    phase: self.phase.successor(),
                    last_action: Actions::EndTurn,
                    ..self
                },
                Ok(()),
            ),
            None => match self.after_next_player() {
                (_, Err(e)) => (self, Err(e)),
                (next, Ok(_)) => (IslandView { last_action: Actions::EndTurn, ..next }, Ok(())),
            },
        }
    }

    /// The game after a command, given what the dice show if they are thrown, and
    /// whether the command was carried out.
    pub open spec fn after(self, command: CommandView, roll: (u8, u8)) -> (
        IslandView,
        Result<(), GameError>,
    ) {
        match self.refusal(command) {
            Some(e) => (self, Err(e)),
            None => match self.phase {
                Phase::Setup => match command.action {
                    Actions::PlaceVillageAndRoad => self.after_placement(command),
                    Actions::EndTurn => self.after_setup_turn(),
                    _ => (self, Err(GameError::NotASetupAction)),
                },
                Phase::Play => if !allowed_after(self.last_action, self.roll_sum()).contains(
                    command.action,
                ) {
                    (self, Err(GameError::ActionNotAllowed))
                } else {
                    match command.action {
                        Actions::RollDice => self.after_roll(roll),
                        Actions::BuildStuff => self.after_building(command),
                        Actions::MoveScorpion => self.after_scorpion(command),
                        Actions::Trade => self.after_trade(command),
                        Actions::BuyBug => self.after_bug(command),
                        Actions::EndTurn => self.after_turn(),
                        Actions::NoAction => (self, Ok(())),
                        Actions::PlaceVillageAndRoad => (self, Err(GameError::ActionNotAllowed)),
                    }
                },
                _ => (self, Err(GameError::NotInSetupOrPlay)),
            },
        }
    }
}

/// A player with enough villages is put on record: once the players have been looked at,
/// the winner on record is a player with as many villages as it takes to win.
pub proof fn law_enough_villages_win(
    list: Seq<PlayerView>,
    nodes: Seq<NodeView>,
    score_to_win: int,
    recorded: Option<Seq<char>>,
    upto: int,
    i: int,
)
    requires
        0 <= i < upto <= list.len(),
        villages_of(nodes, list[i].key) >= score_to_win,
    ensures
        winner_among(list, nodes, score_to_win, recorded, upto) matches Some(winner)
            && villages_of(nodes, winner) >= score_to_win,
    decreases upto,
{
    if villages_of(nodes, list[upto - 1].key) < score_to_win {
        law_enough_villages_win(list, nodes, score_to_win, recorded, upto - 1, i);
    }
}

/// Where no player has enough villages the record stays as it was.
pub proof fn law_too_few_villages_change_nothing(
    list: Seq<PlayerView>,
    nodes: Seq<NodeView>,
    score_to_win: int,
    recorded: Option<Seq<char>>,
    upto: int,
)
    requires
        0 <= upto <= list.len(),
        forall|i: int| 0 <= i < upto ==> villages_of(nodes, (#[trigger] list[i]).key) < score_to_win,
    ensures
        winner_among(list, nodes, score_to_win, recorded, upto) == recorded,
    decreases upto,
{
    if upto > 0 {
        law_too_few_villages_change_nothing(list, nodes, score_to_win, recorded, upto - 1);
    }
}

/// Once a winner is on record, the end of the turn ends the game: the phase moves from
/// play to its end, and the turn does not pass to another player.
pub proof fn law_winner_ends_the_game(game: IslandView, command: CommandView, roll: (u8, u8))
    requires
        game.phase is Play,
        game.refusal(command) is None,
        command.action == Actions::EndTurn,
        allowed_after(game.last_action, game.roll_sum()).contains(Actions::EndTurn),
        game.the_winner is Some,
    ensures
        game.after(command, roll).1 is Ok,
        game.after(command, roll).0.phase is End,
        game.after(command, roll).0.players == game.players,
        game.after(command, roll).0.round == game.round,
{
}

/// Whatever is asked of a game that is over, nothing changes.
pub proof fn law_the_end_is_final(game: IslandView, command: CommandView, roll: (u8, u8))
    requires
        game.phase is End,
    ensures
        game.after(command, roll).1 is Err,
        game.after(command, roll).0 == game,
{
}

/// A command from somebody who does not have the turn changes nothing.
pub proof fn law_out_of_turn_changes_nothing(game: IslandView, command: CommandView, roll: (u8, u8))
    requires
        game.players.active_player matches Some(active) ==> command.player != active.key,
    ensures
        game.after(command, roll).1 is Err,
        game.after(command, roll).0 == game,
{
}

/// During play, an action that is not open after the last one changes nothing.
pub proof fn law_closed_actions_change_nothing(
    game: IslandView,
    command: CommandView,
    roll: (u8, u8),
)
    requires
        game.phase is Play,
        !allowed_after(game.last_action, game.roll_sum()).contains(command.action),
    ensures
        game.after(command, roll).1 is Err,
        game.after(command, roll).0 == game,
{
}

} // verus!
