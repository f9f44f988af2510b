//! The hexagonal island game.
pub mod actions;
pub mod board;
pub mod bonuses;
pub mod colors;
pub mod dues;
pub mod resources;
pub mod rules;
pub mod turns;

pub use crate::games::hexagon::rules::Config;

use crate::error::GameError;
use crate::games::base::players::{
    optional_player_view, Player, PlayerView, Players, PlayersView,
};
use crate::games::base::traits::Game;
use crate::games::base::Phase;
use crate::games::hexagon::actions::{
    build_node, build_road, next_allowed_actions, roll_dice, same_action, Actions, Command,
    Target,
};
use crate::games::hexagon::board::layout::grid;
use crate::chance::is_shuffle_of;
use crate::games::hexagon::board::pools::{number_pool, resource_pool};
use crate::games::hexagon::board::{
    copy_key, optional_key_view, BoardView, GameBoard, CENTROID_SPACING,
};
use crate::games::hexagon::bonuses::find_most_bugs;
use crate::games::hexagon::colors::{color_of, get_player_color};
use crate::games::hexagon::resources::{Resource, ResourceList};
use crate::games::hexagon::rules::{
    bug_price, lemma_nodes_built_keeps_shape, lemma_roads_built_keeps_shape, IslandView,
};
use crate::games::hexagon::turns::{
    all_players_have, all_players_have_some, bugs_with_keys, build_nodes, build_roads, pay_out,
    winner_of,
};
use vstd::prelude::*;

verus! {

/// What one player is shown of the game.
#[derive(Debug)]
pub struct Status {
    pub key: String,
    pub phase: Phase,
    pub round: u16,
    pub active_player: Option<Player>,
    pub roll_result: (u8, u8),
    pub allowed_actions: Vec<Actions>,
    pub the_winner: Option<String>,
    pub colors: Vec<(String, String)>,
    pub resources: ResourceList,
    pub bugs: u8,
    pub has_most_bugs: Option<String>,
    pub board: GameBoard,
}

/// One game of hexagon island.
#[derive(Debug, PartialEq)]
pub struct HexagonIsland {
    pub phase: Phase,
    pub round: u16,
    pub players: Players,
    pub last_action: Actions,
    pub config: Config,
    pub roll_result: (u8, u8),
    pub player_colors: Vec<String>,
    pub player_resources: Vec<ResourceList>,
    pub bugs: Vec<u8>,
    pub has_most_bugs: Option<String>,
    pub board: GameBoard,
    pub the_winner: Option<String>,
}

/// Colours as contracts see them.
pub open spec fn color_views(colors: Seq<String>) -> Seq<Seq<char>> {
    colors.map_values(|c: String| c@)
}

/// Pairs of key and colour as contracts see them.
pub open spec fn color_pair_views(colors: Seq<(String, String)>) -> Seq<(Seq<char>, Seq<char>)> {
    colors.map_values(|c: (String, String)| (c.0@, c.1@))
}

impl View for HexagonIsland {
    type V = IslandView;

    open spec fn view(&self) -> IslandView {
        IslandView {
            phase: self.phase,
            round: self.round as nat,
            players: self.players@,
            last_action: self.last_action,
            config: self.config,
            roll_result: self.roll_result,
            player_colors: color_views(self.player_colors@),
            player_resources: self.player_resources@,
            bugs: self.bugs@,
            has_most_bugs: optional_key_view(self.has_most_bugs),
            board: self.board@,
            the_winner: optional_key_view(self.the_winner),
        }
    }
}

impl IslandView {
    /// The game that nobody has joined yet, with these choices.
    pub open spec fn fresh(config: Config) -> IslandView {
        IslandView {
            phase: Phase::Boot,
            round: 0,
            players: PlayersView::empty(),
            last_action: Actions::NoAction,
            config,
            roll_result: (0, 0),
            player_colors: Seq::empty(),
            player_resources: Seq::empty(),
            bugs: Seq::empty(),
            has_most_bugs: None,
            board: BoardView::empty(),
            the_winner: None,
        }
    }

    /// The choices that a game starts with: two players, ten villages to win, and a
    /// board five hexagons wide.
    pub open spec fn default_config() -> Config {
        Config { num_players: 2, score_to_win: 10, game_board_width: 5 }
    }

    /// The game after a player has been seated, before the board is set up: the player
    /// gets the next seat, the colour of that seat, an empty ledger and no bugs.
    pub open spec fn seated(self, player: PlayerView) -> IslandView {
        IslandView {
            players: self.players.added(player),
            player_colors: self.player_colors.push(color_of(self.players.cardinality as int)),
            player_resources: self.player_resources.push(
                ResourceList { block: 0, rock: 0, timber: 0, fiber: 0, cereal: 0 },
            ),
            bugs: self.bugs.push(0),
            ..self
        }
    }

    /// The ledger of the player with this key; an empty one where no player has it.
    pub open spec fn ledger_of(self, key: Seq<char>) -> ResourceList {
        match self.players.seat_of_key(key) {
            Some(seat) => self.player_resources[seat],
            None => ResourceList { block: 0, rock: 0, timber: 0, fiber: 0, cereal: 0 },
        }
    }

    /// The bugs of the player with this key; none where no player has it.
    pub open spec fn bugs_of(self, key: Seq<char>) -> u8 {
        match self.players.seat_of_key(key) {
            Some(seat) => self.bugs[seat],
            None => 0,
        }
    }

    /// The colour of each player, by key, in seating order.
    pub open spec fn colors_by_key(self) -> Seq<(Seq<char>, Seq<char>)> {
        Seq::new(
            self.player_colors.len(),
            |i: int| (self.players.list[i].key, self.player_colors[i]),
        )
    }
}

impl HexagonIsland {
    /// A game that nobody has joined yet, with these choices.
    pub fn with_config(config: Config) -> (game: HexagonIsland)
        ensures
            game@ == IslandView::fresh(config),
            game@.wf(),
    {
        let game = HexagonIsland {
            phase: Phase::Boot,
            round: 0,
            players: Players::new(),
            last_action: Actions::NoAction,
            config,
            roll_result: (0, 0),
            player_colors: Vec::new(),
            player_resources: Vec::new(),
            bugs: Vec::new(),
            has_most_bugs: None,
            board: GameBoard::new(),
            the_winner: None,
        };
        proof {
            assert(game@.player_colors =~= Seq::empty());
        }
        game
    }

    /// Whether the game keeps its invariant. Every operation of a game asks for it and
    /// keeps it; whoever changes the fields of a game by hand can test it here.
    pub fn is_wf(&self) -> (sound: bool)
        ensures
            sound == self@.wf(),
    {
        let seats = self.players.list.len();
        self.players.is_wf() && self.board.is_wf() && self.player_colors.len() == seats
            && self.player_resources.len() == seats && self.bugs.len() == seats
            && self.roll_result.0 <= 6 && self.roll_result.1 <= 6
    }

    /// The game after the turn has gone to the next player.
    fn advance_turn(&mut self) -> (result: Result<(), GameError>)
        requires
            old(self)@.wf(),
        ensures
            final(self)@.wf(),
            (final(self)@, result) == old(self)@.after_next_player(),
    {
        let mut players = self.players.clone();
        match players.next_player(1) {
            Err(e) => Err(e),
            Ok(()) => {
                let first = match players.active_position() {
                    Some(seat) => seat == 0,
                    None => false,
                };
                if first {
                    if self.round == u16::MAX {
                        return Err(GameError::RoundLimit);
                    }
                    self.round = self.round + 1;
                }
                self.players = players;
                Ok(())
            },
        }
    }

    /// Places a village and a road during setup.
    fn place_village_and_road(&mut self, command: &Command) -> (result: Result<(), GameError>)
        requires
            old(self)@.wf(),
        ensures
            final(self)@.wf(),
            (final(self)@, result) == old(self)@.after_placement(command@),
    {
        if !same_action(self.last_action, Actions::NoAction) && !same_action(
            self.last_action,
            Actions::EndTurn,
        ) {
            return Err(GameError::ActionNotAllowed);
        }
        let (villages, node) = command.get_first(Target::Node);
        let (roads, road) = command.get_first(Target::Road);
        if villages != 1 || roads != 1 {
            return Err(GameError::SetupSelection);
        }
        if road >= self.board.roads.len() {
            return Err(GameError::InvalidRoadIndex);
        }
        let ends = self.board.roads[road].inds;
        proof {
            assert(self@.board.roads[road as int] == self.board.roads@[road as int]@);
        }
        if ends.0 != node && ends.1 != node {
            return Err(GameError::SetupNotAdjacent);
        }
        let ghost before = self@;
        match build_node(
            node,
            command.player.clone(),
            &mut self.board.nodes,
            self.board.roads.as_slice(),
            true,
        ) {
            Err(e) => {
                return Err(e);
            },
            Ok(()) => {},
        }
        proof {
            assert(self@.board == (BoardView { nodes: self@.board.nodes, ..before.board }));
        }
        match build_road(
            road,
            command.player.clone(),
            self.board.nodes.as_slice(),
            &mut self.board.roads,
            true,
        ) {
            Err(e) => {
                return Err(e);
            },
            Ok(()) => {},
        }
        self.last_action = Actions::PlaceVillageAndRoad;
        Ok(())
    }

    /// Ends a turn of setup.
    fn end_setup_turn(&mut self) -> (result: Result<(), GameError>)
        requires
            old(self)@.wf(),
        ensures
            final(self)@.wf(),
            (final(self)@, result) == old(self)@.after_setup_turn(),
    {
        if !same_action(self.last_action, Actions::PlaceVillageAndRoad) {
            return Err(GameError::ActionNotAllowed);
        }
        if all_players_have(&self.players, &self.board.nodes, &self.board.roads, 1) {
            self.last_action = Actions::EndTurn;
            return Ok(());
        }
        if all_players_have(&self.players, &self.board.nodes, &self.board.roads, 2) {
            if self.round == u16::MAX {
                return Err(GameError::RoundLimit);
            }
            let spoils = self.board.resolve_setup();
            match pay_out(&self.players, &mut self.player_resources, &spoils) {
                Err(e) => {
                    return Err(e);
                },
                Ok(()) => {},
            }
            self.phase.next_phase();
            self.round = self.round + 1;
            self.last_action = Actions::EndTurn;
            return Ok(());
        }
        if all_players_have_some(&self.players, &self.board.nodes, &self.board.roads) {
            match self.players.next_player(-1) {
                Err(e) => {
                    return Err(e);
                },
                Ok(()) => {},
            }
            self.last_action = Actions::EndTurn;
            return Ok(());
        }
        match self.advance_turn() {
            Err(e) => Err(e),
            Ok(()) => {
                self.last_action = Actions::EndTurn;
                Ok(())
            },
        }
    }

    /// Takes the roll and pays out what the board gives for it.
    fn take_roll(&mut self, roll: (u8, u8)) -> (result: Result<(), GameError>)
        requires
            old(self)@.wf(),
            1 <= roll.0 <= 6,
            1 <= roll.1 <= 6,
        ensures
            final(self)@.wf(),
            (final(self)@, result) == old(self)@.after_roll(roll),
    {
        self.roll_result = roll;
        let sum = roll.0 + roll.1;
        if sum != 7 {
            let spoils = self.board.resolve_roll(sum);
            match pay_out(&self.players, &mut self.player_resources, &spoils) {
                Err(e) => {
                    return Err(e);
                },
                Ok(()) => {},
            }
        }
        self.last_action = Actions::RollDice;
        Ok(())
    }

    /// Builds what a command asks for.
    fn build_stuff(&mut self, command: &Command) -> (result: Result<(), GameError>)
        requires
            old(self)@.wf(),
        ensures
            final(self)@.wf(),
            (final(self)@, result) == old(self)@.after_building(command@),
    {
        let seat = match self.players.position(&command.player) {
            Some(seat) => seat,
            None => {
                return Err(GameError::NoPlayerResources);
            },
        };
        let asked_roads = command.get_all(Target::Road);
        let asked_nodes = command.get_all(Target::Node);
        let mut purse = self.player_resources[seat];
        let built = build_roads(
            &mut purse,
            &self.board.nodes,
            &mut self.board.roads,
            &command.player,
            &asked_roads,
        );
        self.player_resources.set(seat, purse);
        proof {
            lemma_roads_built_keeps_shape(
                old(self)@.player_resources[seat as int],
                old(self)@.board.nodes,
                old(self)@.board.roads,
                command@.player,
                asked_roads@,
                asked_roads.len() as int,
            );
        }
        let ghost with_roads = self@;
        let ghost paid_roads = purse;
        match built {
            Err(e) => {
                return Err(e);
            },
            Ok(()) => {},
        }
        let built = build_nodes(
            &mut purse,
            &mut self.board.nodes,
            &self.board.roads,
            &command.player,
            &asked_nodes,
        );
        self.player_resources.set(seat, purse);
        proof {
            lemma_nodes_built_keeps_shape(
                paid_roads,
                with_roads.board.nodes,
                with_roads.board.roads,
                command@.player,
                asked_nodes@,
                asked_nodes.len() as int,
            );
            assert(self@.player_resources =~= old(self)@.player_resources.update(
                seat as int,
                purse,
            ));
            assert(self@.board == (BoardView {
                roads: with_roads.board.roads,
                nodes: self@.board.nodes,
                ..old(self)@.board
            }));
        }
        match built {
            Err(e) => {
                return Err(e);
            },
            Ok(()) => {},
        }
        self.find_the_winner();
        self.last_action = Actions::BuildStuff;
        Ok(())
    }

    /// Moves the scorpion to the hexagon that a command names.
    fn move_scorpion(&mut self, command: &Command) -> (result: Result<(), GameError>)
        requires
            old(self)@.wf(),
        ensures
            final(self)@.wf(),
            (final(self)@, result) == old(self)@.after_scorpion(command@),
    {
        let (named, hexagon) = command.get_first(Target::Hex);
        if named != 1 {
            return Err(GameError::ScorpionSelection);
        }
        if hexagon >= self.board.hexagons.len() {
            return Err(GameError::InvalidHexagonIndex);
        }
        self.board.scorpion_index = Some(hexagon);
        self.last_action = Actions::MoveScorpion;
        Ok(())
    }

    /// Trades three for one as a command asks.
    fn trade(&mut self, command: &Command) -> (result: Result<(), GameError>)
        requires
            old(self)@.wf(),
        ensures
            final(self)@.wf(),
            (final(self)@, result) == old(self)@.after_trade(command@),
    {
        let seat = match self.players.position(&command.player) {
            Some(seat) => seat,
            None => {
                return Err(GameError::NoPlayerResources);
            },
        };
        let (have, want) = match command.get_trade() {
            Ok(pair) => pair,
            Err(e) => {
                return Err(e);
            },
        };
        let mut ledger = self.player_resources[seat];
        match ledger.trade(have, want) {
            Err(e) => Err(e),
            Ok(()) => {
                self.player_resources.set(seat, ledger);
                self.last_action = Actions::Trade;
                Ok(())
            },
        }
    }

    /// Buys a bug for the player who asks.
    fn buy_bug(&mut self, command: &Command) -> (result: Result<(), GameError>)
        requires
            old(self)@.wf(),
        ensures
            final(self)@.wf(),
            (final(self)@, result) == old(self)@.after_bug(command@),
    {
        let seat = match self.players.position(&command.player) {
            Some(seat) => seat,
            None => {
                return Err(GameError::NoPlayerResources);
            },
        };
        let price = [Resource::Rock, Resource::Fiber, Resource::Cereal];
        proof {
            assert(price@ =~= bug_price());
        }
        let mut ledger = self.player_resources[seat];
        if !ledger.check(price) {
            return Err(GameError::InsufficientResources);
        }
        let held = self.bugs[seat];
        if held == u8::MAX {
            return Err(GameError::BugLimit);
        }
        self.bugs.set(seat, held + 1);
        let paid = ledger.deduct(price);
        assert(paid is Ok);
        self.player_resources.set(seat, ledger);
        let keyed = bugs_with_keys(&self.players, &self.bugs);
        self.has_most_bugs = find_most_bugs(&keyed, &self.has_most_bugs);
        self.find_the_winner();
        self.last_action = Actions::BuyBug;
        Ok(())
    }

    /// Ends a turn of play.
    fn end_turn(&mut self) -> (result: Result<(), GameError>)
        requires
            old(self)@.wf(),
        ensures
            final(self)@.wf(),
            (final(self)@, result) == old(self)@.after_turn(),
    {
        if self.the_winner.is_some() {
            self.phase.next_phase();
            self.last_action = Actions::EndTurn;
            return Ok(());
        }
        match self.advance_turn() {
            Err(e) => Err(e),
            Ok(()) => {
                self.last_action = Actions::EndTurn;
                Ok(())
            },
        }
    }

    /// Carries out a command, given what the dice show if the command throws them.
    pub fn process_action_with_roll(&mut self, command: Command, roll: (u8, u8)) -> (result:
        Result<(), GameError>)
        requires
            old(self)@.wf(),
            1 <= roll.0 <= 6,
            1 <= roll.1 <= 6,
        ensures
            final(self)@.wf(),
            (final(self)@, result) == old(self)@.after(command@, roll),
    {
        match &self.players.active_player {
            None => {
                return Err(GameError::NoActivePlayer);
            },
            Some(active) => {
                if command.player != active.key {
                    return Err(GameError::NotYourTurn);
                }
            },
        }
        match self.phase {
            Phase::Setup => match command.action {
                Actions::PlaceVillageAndRoad => self.place_village_and_road(&command),
                Actions::EndTurn => self.end_setup_turn(),
                _ => Err(GameError::NotASetupAction),
            },
            Phase::Play => {
                let roll_sum = self.roll_result.0 + self.roll_result.1;
                let allowed = next_allowed_actions(&self.last_action, roll_sum);
                if !is_allowed(&allowed, command.action) {
                    return Err(GameError::ActionNotAllowed);
                }
                match command.action {
                    Actions::RollDice => self.take_roll(roll),
                    Actions::BuildStuff => self.build_stuff(&command),
                    Actions::MoveScorpion => self.move_scorpion(&command),
                    Actions::Trade => self.trade(&command),
                    Actions::BuyBug => self.buy_bug(&command),
                    Actions::EndTurn => self.end_turn(),
                    Actions::NoAction => Ok(()),
                    Actions::PlaceVillageAndRoad => Err(GameError::ActionNotAllowed),
                }
            },
            _ => Err(GameError::NotInSetupOrPlay),
        }
    }
}

/// Whether a list of actions holds this action.
pub fn is_allowed(allowed: &Vec<Actions>, action: Actions) -> (found: bool)
    ensures
        found == allowed@.contains(action),
{
    let mut i: usize = 0;
    while i < allowed.len()
        invariant
            i <= allowed.len(),
            forall|j: int| 0 <= j < i ==> allowed@[j] != action,
        decreases allowed.len() - i,
    {
        if same_action(allowed[i], action) {
            return true;
        }
        i += 1;
    }
    false
}

impl Game for HexagonIsland {
    type Status = Status;

    type Command = Command;

    type Config = Config;

    open spec fn wf(&self) -> bool {
        self@.wf()
    }

    open spec fn phase_of(&self) -> Phase {
        self.phase
    }

    open spec fn round_of(&self) -> nat {
        self.round as nat
    }

    open spec fn roster(&self) -> PlayersView {
        self.players@
    }

    /// A game for two players on a board five hexagons wide, won with ten villages.
    fn new() -> (game: HexagonIsland)
        ensures
            game@ == IslandView::fresh(IslandView::default_config()),
    {
        HexagonIsland::with_config(
            Config { num_players: 2, score_to_win: 10, game_board_width: 5 },
        )
    }

    /// Moves the game to the phase that follows and changes nothing else.
    fn next_phase(&mut self)
        ensures
            final(self)@ == (IslandView { phase: old(self).phase.successor(), ..old(self)@ }),
    {
        self.phase.next_phase();
    }

    /// Counts one more round and changes nothing else.
    fn next_round(&mut self)
        ensures
            final(self)@ == (IslandView { round: old(self)@.round + 1, ..old(self)@ }),
    {
        self.round += 1;
    }

    /// Puts the game back to where a new one starts. The choices made for the game stay;
    /// everything else is as in a game that nobody has joined.
    fn reset(&mut self)
        ensures
            final(self)@ == IslandView::fresh(old(self).config),
    {
        self.phase = Phase::Boot;
        self.round = 0;
        self.players.reset();
        self.board.reset();
        self.player_resources.truncate(0);
        self.player_colors.truncate(0);
        self.bugs.truncate(0);
        self.has_most_bugs = None;
        self.roll_result = (0, 0);
        self.the_winner = None;
        self.last_action = Actions::NoAction;
        proof {
            assert(self@.player_colors =~= Seq::empty());
            assert(self@.player_resources =~= Seq::empty());
            assert(self@.bugs =~= Seq::empty());
        }
    }

    /// Seats a player, unless the table is full. The player who fills the table starts
    /// the game: the phase moves on and the board is set up.
    fn add_player(&mut self, key: &str, name: &str, socket_id: &str) -> (result: Result<
        (),
        GameError,
    >)
        ensures
            result is Err <==> old(self).players.cardinality == old(self).config.num_players,
            result is Err ==> result == Err::<(), GameError>(GameError::TooManyPlayers)
                && *final(self) == *old(self),
            result is Ok ==> {
                let seated = old(self)@.seated(
                    PlayerView { key: key@, name: name@, socket_id: socket_id@ },
                );
                if seated.players.cardinality == seated.config.num_players {
                    exists|resources: Seq<Resource>, numbers: Seq<u8>|
                        {
                            &&& is_shuffle_of(
                                resources,
                                resource_pool(
                                    grid(seated.config.game_board_width as int).len() as int,
                                ),
                            )
                            &&& is_shuffle_of(
                                numbers,
                                number_pool(
                                    grid(seated.config.game_board_width as int).len() as int,
                                ),
                            )
                            &&& final(self)@ == (IslandView {
                                phase: seated.phase.successor(),
                                board: BoardView::fresh(
                                    CENTROID_SPACING as int,
                                    seated.config.game_board_width as int,
                                    resources,
                                    numbers,
                                ),
                                ..seated
                            })
                        }
                } else {
                    final(self)@ == seated
                }
            },
    {
        if self.players.cardinality == self.config.num_players {
            return Err(GameError::TooManyPlayers);
        }
        self.player_colors.push(get_player_color(self.players.cardinality));
        self.player_resources.push(ResourceList::new());
        self.bugs.push(0);
        self.players.add_player(key, name, socket_id);
        proof {
            assert(self@.player_colors =~= old(self)@.player_colors.push(
                color_of(old(self).players.cardinality as int),
            ));
        }
        if self.players.cardinality == self.config.num_players {
            self.phase.next_phase();
            self.board.setup(self.config.game_board_width);
        }
        Ok(())
    }

    /// Hands the turn to the player with this key and changes nothing else.
    fn set_active_player(&mut self, key: &str) -> (result: Result<(), GameError>)
        ensures
            match old(self)@.players.activated(key@) {
                Ok(players) => final(self)@ == (IslandView { players, ..old(self)@ }),
                Err(_) => *final(self) == *old(self),
            },
    {
        self.players.set_active_player(key)
    }

    /// Hands the turn to the next player. When the turn comes back to the first seat a
    /// new round begins; where the round counter cannot count it, nothing changes.
    fn next_player(&mut self) -> (result: Result<(), GameError>)
        ensures
            (final(self)@, result) == old(self)@.after_next_player(),
    {
        self.advance_turn()
    }

    /// Hands the turn to the player before the one who has it and changes nothing else.
    fn previous_player(&mut self) -> (result: Result<(), GameError>)
        ensures
            match old(self)@.players.rotated(-1) {
                Ok(players) => final(self)@ == (IslandView { players, ..old(self)@ }),
                Err(_) => *final(self) == *old(self),
            },
    {
        self.players.next_player(-1)
    }

    /// What the player with this key is shown: the state of the game that all players
    /// see, and the actions, the ledger and the bugs of this player alone.
    fn get_game_status(&self, key: &str) -> (status: Status)
        ensures
            status.key@ == key@,
            status.phase == self.phase,
            status.round == self.round,
            optional_player_view(status.active_player) == self@.players.active_player,
            status.roll_result == self.roll_result,
            status.allowed_actions@ == self@.allowed_for(key@),
            optional_key_view(status.the_winner) == self@.the_winner,
            color_pair_views(status.colors@) == self@.colors_by_key(),
            status.resources == self@.ledger_of(key@),
            status.bugs == self@.bugs_of(key@),
            optional_key_view(status.has_most_bugs) == self@.has_most_bugs,
            status.board@ == self@.board,
    {
        let key = key.to_owned();
        let allowed_actions = match &self.players.active_player {
            None => Vec::new(),
            Some(active) => {
                if active.key != key {
                    vec![Actions::NoAction]
                } else {
                    match self.phase {
                        Phase::Setup => vec![Actions::PlaceVillageAndRoad],
                        Phase::Play => next_allowed_actions(
                            &self.last_action,
                            self.roll_result.0 + self.roll_result.1,
                        ),
                        _ => vec![Actions::NoAction],
                    }
                }
            },
        };
        proof {
            assert(allowed_actions@ =~= self@.allowed_for(key@));
        }
        let seat = self.players.position(&key);
        let resources = match seat {
            Some(seat) => self.player_resources[seat],
            None => ResourceList::new(),
        };
        let bugs = match seat {
            Some(seat) => self.bugs[seat],
            None => 0,
        };
        let mut colors: Vec<(String, String)> = Vec::new();
        let mut i: usize = 0;
        while i < self.player_colors.len()
            invariant
                i <= self.player_colors.len(),
                self@.wf(),
                colors.len() == i,
                forall|j: int|
                    0 <= j < i ==> (#[trigger] colors@[j]).0@ == self@.players.list[j].key
                        && colors@[j].1@ == self.player_colors@[j]@,
            decreases self.player_colors.len() - i,
        {
            proof {
                assert(self@.players.list[i as int] == self.players.list@[i as int]@);
            }
            colors.push((self.players.list[i].key.clone(), self.player_colors[i].clone()));
            i += 1;
        }
        proof {
            assert(color_pair_views(colors@) =~= self@.colors_by_key());
        }
        let active_player = match &self.players.active_player {
            Some(p) => Some(p.clone()),
            None => None,
        };
        Status {
            key,
            phase: self.phase,
            round: self.round,
            active_player,
            roll_result: self.roll_result,
            allowed_actions,
            the_winner: copy_key(&self.the_winner),
            colors,
            resources,
            bugs,
            has_most_bugs: copy_key(&self.has_most_bugs),
            board: self.board.clone(),
        }
    }

    /// Counts every player's villages and puts a player with enough of them on record
    /// as the winner; where several have enough, the one in the last seat.
    fn find_the_winner(&mut self)
        ensures
            final(self)@ == (IslandView { the_winner: old(self)@.winner_found(), ..old(self)@ }),
    {
        let recorded = copy_key(&self.the_winner);
        self.the_winner = winner_of(
            &self.players,
            &self.board.nodes,
            self.config.score_to_win,
            recorded,
        );
    }

    /// Carries out a command, or refuses it. A command to roll throws the dice; whatever
    /// they show, the game goes on as `process_action_with_roll` says for that roll.
    fn process_action(&mut self, command: Command) -> (result: Result<(), GameError>)
        ensures
            exists|first: u8, second: u8|
                1 <= first <= 6 && 1 <= second <= 6 && (final(self)@, result) == #[trigger] old(
                    self,
                )@.after(command@, (first, second)),
    {
        let roll = if same_action(command.action, Actions::RollDice) {
            roll_dice()
        } else {
            (1, 1)
        };
        self.process_action_with_roll(command, roll)
    }

    /// Takes the choices for the game, before anybody has filled the table.
    fn configure_game(&mut self, config: Config) -> (result: Result<(), GameError>)
        ensures
            result is Ok ==> final(self)@ == (IslandView { config, ..old(self)@ }),
            result is Err ==> *final(self) == *old(self),
    {
        match self.phase {
            Phase::Boot => {
                self.config = config;
                Ok(())
            },
            _ => Err(GameError::ConfigureOutsideBoot),
        }
    }
}

} // verus!
