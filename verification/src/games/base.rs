//! What every game has: a phase, a round counter and a roster of players.
pub mod players;
pub mod traits;

use crate::error::GameError;
use crate::games::base::players::{Players, PlayersView};
use crate::games::base::traits::Game;
use std::collections::HashMap;
use vstd::prelude::*;

verus! {

/// The stages a game passes through, in order. `End` is where it stays.
#[derive(Clone, Copy, Debug, PartialEq, Eq, Structural)]
pub enum Phase {
    Boot,
    Setup,
    Play,
    End,
}

impl Phase {
    /// The phase that follows this one; `End` follows itself.
    pub open spec fn successor(self) -> Phase {
        match self {
            Phase::Boot => Phase::Setup,
            Phase::Setup => Phase::Play,
            Phase::Play => Phase::End,
            Phase::End => Phase::End,
        }
    }

    /// Moves on to the phase that follows.
    pub fn next_phase(&mut self)
        ensures
            *final(self) == old(self).successor(),
    {
        *self = match *self {
            Phase::Boot => Phase::Setup,
            Phase::Setup => Phase::Play,
            Phase::Play => Phase::End,
            Phase::End => Phase::End,
        }
    }

    /// The phase's name.
    pub open spec fn name_of(self) -> Seq<char> {
        match self {
            Phase::Boot => "Boot"@,
            Phase::Setup => "Setup"@,
            Phase::Play => "Play"@,
            Phase::End => "End"@,
        }
    }

    /// The phase's name.
    pub fn name(&self) -> (text: &'static str)
        ensures
            text@ == self.name_of(),
    {
        match self {
            Phase::Boot => "Boot",
            Phase::Setup => "Setup",
            Phase::Play => "Play",
            Phase::End => "End",
        }
    }
}

/// What a player of the bare game can do: nothing.
#[derive(Clone, Copy, Debug, PartialEq, Eq, Structural)]
pub enum Actions {
    NoAction,
}

/// A command to the bare game.
pub struct CoreCommand {
    pub action: Actions,
}

/// One configured value.
#[derive(Clone, Copy, Debug, PartialEq, Eq, Structural)]
pub enum CoreConfigType {
    Int(i32),
}

/// The bare game: phases, rounds and a roster, with no rules of its own.
#[derive(Debug, PartialEq)]
pub struct Core {
    pub phase: Phase,
    pub round: u16,
    pub players: Players,
    pub last_action: Actions,
    pub config: HashMap<String, CoreConfigType>,
}

impl Game for Core {
    type Status = Core;

    type Command = CoreCommand;

    type Config = HashMap<String, CoreConfigType>;

    open spec fn wf(&self) -> bool {
        self.players.wf()
    }

    open spec fn phase_of(&self) -> Phase {
        self.phase
    }

    open spec fn round_of(&self) -> nat {
        self.round as nat
    }

    open spec fn roster(&self) -> PlayersView {
        self.players@
    }

    /// A bare game that nobody has joined, with nothing configured.
    fn new() -> (game: Core)
        ensures
            game.last_action == Actions::NoAction,
            game.config@ == Map::<String, CoreConfigType>::empty(),
    {
        Core {
            phase: Phase::Boot,
            round: 0,
            players: Players::new(),
            last_action: Actions::NoAction,
            config: HashMap::new(),
        }
    }

    /// Moves the game to the phase that follows and changes nothing else.
    fn next_phase(&mut self)
        ensures
            final(self).last_action == old(self).last_action,
            final(self).config == old(self).config,
    {
        self.phase.next_phase();
    }

    /// Counts one more round and changes nothing else.
    fn next_round(&mut self)
        ensures
            final(self).last_action == old(self).last_action,
            final(self).config == old(self).config,
    {
        self.round += 1;
    }

    /// Puts phase, round and roster back to where a new game starts. What was
    /// configured stays.
    fn reset(&mut self)
        ensures
            final(self).last_action == old(self).last_action,
            final(self).config == old(self).config,
    {
        self.phase = Phase::Boot;
        self.round = 0;
        self.players.reset();
    }

    /// Seats a player. The bare game has room for everybody.
    fn add_player(&mut self, key: &str, name: &str, socket_id: &str) -> (result: Result<
        (),
        GameError,
    >)
        ensures
            result is Ok,
            final(self).phase == old(self).phase,
            final(self).last_action == old(self).last_action,
            final(self).config == old(self).config,
    {
        self.players.add_player(key, name, socket_id);
        Ok(())
    }

    /// Hands the turn to the player with this key.
    fn set_active_player(&mut self, key: &str) -> (result: Result<(), GameError>)
        ensures
            final(self).last_action == old(self).last_action,
            final(self).config == old(self).config,
    {
        self.players.set_active_player(key)
    }

    /// Hands the turn to the next player. The bare game counts no rounds.
    fn next_player(&mut self) -> (result: Result<(), GameError>)
        ensures
            match old(self).players@.rotated(1) {
                Ok(roster) => result is Ok && final(self).players@ == roster,
                Err(e) => result == Err::<(), GameError>(e),
            },
            final(self).round == old(self).round,
            final(self).last_action == old(self).last_action,
            final(self).config == old(self).config,
    {
        self.players.next_player(1)
    }

    /// Hands the turn to the player before the one who has it.
    fn previous_player(&mut self) -> (result: Result<(), GameError>)
        ensures
            final(self).last_action == old(self).last_action,
            final(self).config == old(self).config,
    {
        self.players.next_player(-1)
    }

    /// A copy of the game; every player is shown the same.
    fn get_game_status(&self, key: &str) -> (status: Core)
        ensures
            status.phase == self.phase,
            status.round == self.round,
            status.players@ == self.players@,
            status.last_action == self.last_action,
            status.config@ == self.config@,
    {
        Core {
            phase: self.phase,
            round: self.round,
            players: self.players.clone(),
            last_action: self.last_action,
            config: self.config.clone(),
        }
    }

    /// The bare game has no winner: nothing changes.
    fn find_the_winner(&mut self)
        ensures
            *final(self) == *old(self),
    {
    }

    /// Accepts the one action there is during setup and play, and changes nothing.
    fn process_action(&mut self, command: CoreCommand) -> (result: Result<(), GameError>)
        ensures
            *final(self) == *old(self),
            result is Ok <==> old(self).phase is Setup || old(self).phase is Play,
            result is Err ==> result == Err::<(), GameError>(GameError::NotInSetupOrPlay),
    {
        match self.phase {
            Phase::Setup | Phase::Play => match command.action {
                Actions::NoAction => Ok(()),
            },
            _ => Err(GameError::NotInSetupOrPlay),
        }
    }

    /// Takes what is configured, before the game has started.
    fn configure_game(&mut self, config: HashMap<String, CoreConfigType>) -> (result: Result<
        (),
        GameError,
    >)
        ensures
            final(self).last_action == old(self).last_action,
            final(self).players == old(self).players,
            result is Ok ==> final(self).config == config,
            result is Err ==> final(self).config == old(self).config,
    {
        match self.phase {
            Phase::Boot => {
                self.config = config;
                Ok(())
            },
            _ => Err(GameError::ConfigureOutsideBoot),
        }
    }
}

} // verus!
