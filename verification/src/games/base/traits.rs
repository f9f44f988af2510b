//! What a game must offer to whoever drives it.
use crate::error::GameError;
use crate::games::base::players::{PlayerView, PlayersView};
use crate::games::base::Phase;
use vstd::prelude::*;

verus! {

/// A game that is set up, played turn by turn, and reset.
///
/// The contracts below hold of every game; a game adds to them what it alone knows.
pub trait Game: Sized {
    /// What a player is shown of the game.
    type Status;

    /// What a player sends to act.
    type Command;

    /// What is chosen before the game starts.
    type Config;

    /// The game's own invariant.
    spec fn wf(&self) -> bool;

    /// The phase the game is in.
    spec fn phase_of(&self) -> Phase;

    /// The number of the round being played.
    spec fn round_of(&self) -> nat;

    /// The players and whose turn it is.
    spec fn roster(&self) -> PlayersView;

    /// A game that nobody has joined yet.
    fn new() -> (game: Self)
        ensures
            game.wf(),
            game.phase_of() == Phase::Boot,
            game.round_of() == 0,
            game.roster() == PlayersView::empty(),
    ;

    /// Moves the game to the phase that follows; the last phase follows itself.
    fn next_phase(&mut self)
        requires
            old(self).wf(),
        ensures
            final(self).wf(),
            final(self).phase_of() == old(self).phase_of().successor(),
            final(self).round_of() == old(self).round_of(),
            final(self).roster() == old(self).roster(),
    ;

    /// Counts one more round.
    fn next_round(&mut self)
        requires
            old(self).wf(),
            old(self).round_of() < u16::MAX,
        ensures
            final(self).wf(),
            final(self).round_of() == old(self).round_of() + 1,
            final(self).phase_of() == old(self).phase_of(),
            final(self).roster() == old(self).roster(),
    ;

    /// Puts the game back to where a new one starts.
    fn reset(&mut self)
        ensures
            final(self).wf(),
            final(self).phase_of() == Phase::Boot,
            final(self).round_of() == 0,
            final(self).roster() == PlayersView::empty(),
    ;

    /// Seats a player. A game may refuse; then nobody is seated.
    fn add_player(&mut self, key: &str, name: &str, socket_id: &str) -> (result: Result<
        (),
        GameError,
    >)
        requires
            old(self).wf(),
        ensures
            final(self).wf(),
            final(self).round_of() == old(self).round_of(),
            result is Ok ==> final(self).roster() == old(self).roster().added(
                PlayerView { key: key@, name: name@, socket_id: socket_id@ },
            ),
            result is Err ==> final(self).roster() == old(self).roster() && final(self).phase_of() == old(self).phase_of(),
    ;

    /// Hands the turn to the player with this key.
    fn set_active_player(&mut self, key: &str) -> (result: Result<(), GameError>)
        requires
            old(self).wf(),
        ensures
            final(self).wf(),
            final(self).phase_of() == old(self).phase_of(),
            final(self).round_of() == old(self).round_of(),
            match old(self).roster().activated(key@) {
                Ok(roster) => result is Ok && final(self).roster() == roster,
                Err(e) => result == Err::<(), GameError>(e) && final(self).roster() == old(self).roster(),
            },
    ;

    /// Hands the turn to the next player at the table. A game may refuse; then the turn
    /// stays where it is.
    fn next_player(&mut self) -> (result: Result<(), GameError>)
        requires
            old(self).wf(),
        ensures
            final(self).wf(),
            final(self).phase_of() == old(self).phase_of(),
            result is Ok ==> old(self).roster().rotated(1) == Ok::<PlayersView, GameError>(
                final(self).roster(),
            ),
            result is Err ==> final(self).roster() == old(self).roster() && final(self).round_of() == old(self).round_of(),
            old(self).roster().rotated(1) matches Err(e) ==> result == Err::<(), GameError>(e),
    ;

    /// Hands the turn to the player before the one who has it.
    fn previous_player(&mut self) -> (result: Result<(), GameError>)
        requires
            old(self).wf(),
        ensures
            final(self).wf(),
            final(self).phase_of() == old(self).phase_of(),
            final(self).round_of() == old(self).round_of(),
            match old(self).roster().rotated(-1) {
                Ok(roster) => result is Ok && final(self).roster() == roster,
                Err(e) => result == Err::<(), GameError>(e) && final(self).roster() == old(self).roster(),
            },
    ;

    /// What the player with this key is shown.
    fn get_game_status(&self, key: &str) -> (status: Self::Status)
        requires
            self.wf(),
    ;

    /// Looks for a player who has won and records them.
    fn find_the_winner(&mut self)
        requires
            old(self).wf(),
        ensures
            final(self).wf(),
            final(self).phase_of() == old(self).phase_of(),
            final(self).round_of() == old(self).round_of(),
            final(self).roster() == old(self).roster(),
    ;

    /// Carries out a player's command, or refuses it.
    fn process_action(&mut self, command: Self::Command) -> (result: Result<(), GameError>)
        requires
            old(self).wf(),
        ensures
            final(self).wf(),
            !(old(self).phase_of() is Setup || old(self).phase_of() is Play) ==> result is Err,
    ;

    /// Takes the choices for the game. They can be made only before it starts.
    fn configure_game(&mut self, config: Self::Config) -> (result: Result<(), GameError>)
        requires
            old(self).wf(),
        ensures
            final(self).wf(),
            final(self).phase_of() == old(self).phase_of(),
            final(self).round_of() == old(self).round_of(),
            final(self).roster() == old(self).roster(),
            result is Ok <==> old(self).phase_of() is Boot,
            result is Err ==> result == Err::<(), GameError>(GameError::ConfigureOutsideBoot),
    ;
}

} // verus!
