//! The roster: who plays, in which order they sit, and whose turn it is.
use crate::error::GameError;
use crate::search::{first_match, is_first_match, lemma_first_match_is, lemma_first_match_none};
use vstd::prelude::*;

verus! {

/// One player: a key that identifies them, a name to show, and the connection they use.
#[derive(Debug, PartialEq)]
pub struct Player {
    pub key: String,
    pub name: String,
    pub socket_id: String,
}

/// A player as contracts see them.
pub struct PlayerView {
    pub key: Seq<char>,
    pub name: Seq<char>,
    pub socket_id: Seq<char>,
}

impl View for Player {
    type V = PlayerView;

    open spec fn view(&self) -> PlayerView {
        PlayerView { key: self.key@, name: self.name@, socket_id: self.socket_id@ }
    }
}

impl Clone for Player {
    fn clone(&self) -> (copy: Player)
        ensures
            copy == *self,
    {
        Player {
            key: self.key.clone(),
            name: self.name.clone(),
            socket_id: self.socket_id.clone(),
        }
    }
}

impl Player {
    /// Whether two players are the same in key, name and connection.
    pub fn same_as(&self, other: &Player) -> (same: bool)
        ensures
            same == (self@ == other@),
    {
        self.key == other.key && self.name == other.name && self.socket_id == other.socket_id
    }
}

/// The players in seating order, the one whose turn it is, and how many there are.
#[derive(Debug, PartialEq)]
pub struct Players {
    pub list: Vec<Player>,
    pub active_player: Option<Player>,
    pub cardinality: usize,
}

/// A roster as contracts see it.
pub struct PlayersView {
    pub list: Seq<PlayerView>,
    pub active_player: Option<PlayerView>,
    pub cardinality: nat,
}

/// The players of a list as contracts see them.
pub open spec fn player_views(list: Seq<Player>) -> Seq<PlayerView> {
    list.map_values(|p: Player| p@)
}

/// An optional player as contracts see it.
pub open spec fn optional_player_view(p: Option<Player>) -> Option<PlayerView> {
    match p {
        Some(p) => Some(p@),
        None => None,
    }
}

impl View for Players {
    type V = PlayersView;

    open spec fn view(&self) -> PlayersView {
        PlayersView {
            list: player_views(self.list@),
            active_player: optional_player_view(self.active_player),
            cardinality: self.cardinality as nat,
        }
    }
}

/// The condition of having this key.
pub open spec fn has_key(key: Seq<char>) -> spec_fn(PlayerView) -> bool {
    |p: PlayerView| p.key == key
}

/// The condition of being this player.
pub open spec fn is_player(a: PlayerView) -> spec_fn(PlayerView) -> bool {
    |p: PlayerView| p == a
}

impl PlayersView {
    /// The counter agrees with the list.
    pub open spec fn wf(self) -> bool {
        self.cardinality == self.list.len()
    }

    /// The roster with nobody in it.
    pub open spec fn empty() -> PlayersView {
        PlayersView { list: Seq::empty(), active_player: None, cardinality: 0 }
    }

    /// The roster after `p` has taken the next seat. The first to sit down gets the turn.
    pub open spec fn added(self, p: PlayerView) -> PlayersView {
        PlayersView {
            list: self.list.push(p),
            active_player: if self.list.len() == 0 {
                Some(p)
            } else {
                self.active_player
            },
            cardinality: self.cardinality + 1,
        }
    }

    /// The seat of the first player with this key.
    pub open spec fn seat_of_key(self, key: Seq<char>) -> Option<int> {
        first_match(self.list, has_key(key))
    }

    /// The seat of the player whose turn it is.
    pub open spec fn active_seat(self) -> Option<int> {
        match self.active_player {
            None => None,
            Some(a) => first_match(self.list, is_player(a)),
        }
    }

    /// The roster with the turn handed to the player with this key, if there is one.
    pub open spec fn activated(self, key: Seq<char>) -> Result<PlayersView, GameError> {
        match self.seat_of_key(key) {
            Some(i) => Ok(PlayersView { active_player: Some(self.list[i]), ..self }),
            None => Err(GameError::PlayerKeyNotFound),
        }
    }

    /// The seat that the turn moves to from seat `i` by `advance` places, going round the
    /// table in either direction.
    pub open spec fn seat_after(self, i: int, advance: int) -> int {
        (i + advance) % (self.cardinality as int)
    }

    /// The roster with the turn moved on by `advance` seats.
    pub open spec fn rotated(self, advance: int) -> Result<PlayersView, GameError> {
        match self.active_player {
            None => Err(GameError::NoActivePlayer),
            Some(_) => match self.active_seat() {
                None => Err(GameError::ActivePlayerNotInRoster),
                Some(i) => Ok(
                    PlayersView {
                        active_player: Some(self.list[self.seat_after(i, advance)]),
                        ..self
                    },
                ),
            },
        }
    }
}

impl Clone for Players {
    fn clone(&self) -> (copy: Players)
        ensures
            copy@ == self@,
            copy.list@ == self.list@,
            copy.active_player == self.active_player,
            copy.cardinality == self.cardinality,
    {
        let mut list: Vec<Player> = Vec::new();
        let mut i: usize = 0;
        while i < self.list.len()
            invariant
                i <= self.list.len(),
                list@ == self.list@.take(i as int),
            decreases self.list.len() - i,
        {
            list.push(self.list[i].clone());
            proof {
                assert(list@ =~= self.list@.take(i + 1));
            }
            i += 1;
        }
        proof {
            assert(self.list@.take(i as int) =~= self.list@);
        }
        let active_player = match &self.active_player {
            Some(p) => Some(p.clone()),
            None => None,
        };
        Players { list, active_player, cardinality: self.cardinality }
    }
}

impl Players {
    /// The roster's own invariant: the counter agrees with the list.
    pub open spec fn wf(&self) -> bool {
        self@.wf()
    }

    /// Whether the roster keeps its invariant.
    pub fn is_wf(&self) -> (sound: bool)
        ensures
            sound == self.wf(),
    {
        self.cardinality == self.list.len()
    }

    /// A roster with nobody in it.
    pub fn new() -> (players: Players)
        ensures
            players@ == PlayersView::empty(),
            players.wf(),
    {
        let players = Players { list: Vec::new(), active_player: None, cardinality: 0 };
        assert(players@.list =~= Seq::empty());
        players
    }

    /// Seats a new player after those already there.
    pub fn add_player(&mut self, key: &str, name: &str, socket_id: &str)
        requires
            old(self).wf(),
        ensures
            final(self).wf(),
            final(self)@ == old(self)@.added(
                PlayerView { key: key@, name: name@, socket_id: socket_id@ },
            ),
    {
        let player = Player {
            key: key.to_owned(),
            name: name.to_owned(),
            socket_id: socket_id.to_owned(),
        };
        let first = self.list.len() == 0;
        if first {
            self.active_player = Some(player.clone());
        }
        self.list.push(player);
        let seated = self.list.len();
        self.cardinality = seated;
        proof {
            assert(self@.list =~= old(self)@.list.push(player@));
        }
    }

    /// The seat of the first player with this key.
    pub fn position(&self, key: &String) -> (seat: Option<usize>)
        ensures
            match seat {
                Some(i) => self@.seat_of_key(key@) == Some(i as int) && i < self.list.len(),
                None => self@.seat_of_key(key@) is None,
            },
    {
        let ghost wanted = has_key(key@);
        let mut i: usize = 0;
        while i < self.list.len()
            invariant
                i <= self.list.len(),
                forall|j: int| 0 <= j < i ==> !wanted(#[trigger] self@.list[j]),
                wanted == has_key(key@),
            decreases self.list.len() - i,
        {
            if self.list[i].key == *key {
                proof {
                    assert(is_first_match(self@.list, wanted, i as int));
                    lemma_first_match_is(self@.list, wanted, i as int);
                }
                return Some(i);
            }
            i += 1;
        }
        proof {
            lemma_first_match_none(self@.list, wanted);
        }
        None
    }

    /// The seat of the player whose turn it is, if that player sits at the table.
    pub fn active_position(&self) -> (seat: Option<usize>)
        ensures
            match seat {
                Some(i) => self@.active_seat() == Some(i as int) && i < self.list.len(),
                None => self@.active_seat() is None,
            },
    {
        match &self.active_player {
            None => None,
            Some(active) => {
                let ghost wanted = is_player(active@);
                let mut i: usize = 0;
                while i < self.list.len()
                    invariant
                        i <= self.list.len(),
                        forall|j: int| 0 <= j < i ==> !wanted(#[trigger] self@.list[j]),
                        wanted == is_player(active@),
                        self.active_player == Some(*active),
                    decreases self.list.len() - i,
                {
                    if self.list[i].same_as(active) {
                        proof {
                            assert(is_first_match(self@.list, wanted, i as int));
                            lemma_first_match_is(self@.list, wanted, i as int);
                            assert(self@.active_player == Some(active@));
                        }
                        return Some(i);
                    }
                    i += 1;
                }
                proof {
                    lemma_first_match_none(self@.list, wanted);
                    assert(self@.active_player == Some(active@));
                }
                None
            },
        }
    }

    /// Hands the turn to the player with this key.
    pub fn set_active_player(&mut self, key: &str) -> (result: Result<(), GameError>)
        ensures
            match old(self)@.activated(key@) {
                Ok(v) => result is Ok && final(self)@ == v,
                Err(e) => result == Err::<(), GameError>(e) && *final(self) == *old(self),
            },
    {
        let key = key.to_owned();
        match self.position(&key) {
            Some(i) => {
                self.active_player = Some(self.list[i].clone());
                Ok(())
            },
            None => Err(GameError::PlayerKeyNotFound),
        }
    }

    /// Moves the turn on by `advance` seats: forward for a positive number, backward for a
    /// negative one, past either end of the table and round again.
    pub fn next_player(&mut self, advance: i8) -> (result: Result<(), GameError>)
        requires
            old(self).wf(),
        ensures
            final(self).wf(),
            match old(self)@.rotated(advance as int) {
                Ok(v) => result is Ok && final(self)@ == v,
                Err(e) => result == Err::<(), GameError>(e) && *final(self) == *old(self),
            },
    {
        if self.active_player.is_none() {
            return Err(GameError::NoActivePlayer);
        }
        match self.active_position() {
            None => Err(GameError::ActivePlayerNotInRoster),
            Some(i) => {
                let seats = self.cardinality;
                let next = Self::seat_after(i, advance, seats);
                self.active_player = Some(self.list[next].clone());
                Ok(())
            },
        }
    }

    /// The seat reached from seat `i` of `seats` by `advance` places.
    pub fn seat_after(i: usize, advance: i8, seats: usize) -> (next: usize)
        requires
            i < seats,
        ensures
            next == (i + advance) % (seats as int),
            next < seats,
    {
        let sum: i128 = i as i128 + advance as i128;
        let n: u128 = seats as u128;
        if sum >= 0 {
            ((sum as u128) % n) as usize
        } else {
            let short: u128 = ((-sum) as u128) % n;
            proof {
                let q = (-sum) / (n as int);
                vstd::arithmetic::div_mod::lemma_fundamental_div_mod(-sum as int, n as int);
                if short == 0 {
                    assert(sum == (-q) * n + 0) by (nonlinear_arith)
                        requires
                            -sum == n * q + short,
                            short == 0,
                    ;
                    vstd::arithmetic::div_mod::lemma_fundamental_div_mod_converse(
                        sum as int,
                        n as int,
                        -q,
                        0,
                    );
                } else {
                    assert(sum == (-q - 1) * n + (n - short)) by (nonlinear_arith)
                        requires
                            -sum == n * q + short,
                    ;
                    vstd::arithmetic::div_mod::lemma_fundamental_div_mod_converse(
                        sum as int,
                        n as int,
                        -q - 1,
                        n - short,
                    );
                }
            }
            if short == 0 {
                0
            } else {
                (n - short) as usize
            }
        }
    }

    /// Empties the roster.
    pub fn reset(&mut self)
        ensures
            final(self)@ == PlayersView::empty(),
            final(self).wf(),
    {
        self.list.truncate(0);
        self.active_player = None;
        self.cardinality = 0;
        assert(self@.list =~= Seq::empty());
    }
}

} // verus!
