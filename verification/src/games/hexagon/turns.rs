//! The steps that the rules are made of, each on the part of the game it touches.
use crate::error::GameError;
use crate::games::base::players::Players;
use crate::games::hexagon::actions::{
    build_node, build_road, count_player_nodes, count_player_roads,
};
use crate::games::hexagon::board::{
    node_views, optional_key_view, road_views, spoils_view, Node, Road,
};
use crate::games::hexagon::bonuses::bug_views;
use crate::games::hexagon::resources::{Resource, ResourceList};
use crate::games::hexagon::rules::{
    bugs_by_key, lemma_nodes_built_stops, lemma_paid_out_stops, lemma_roads_built_stops,
    nodes_built, paid_out, road_price, roads_built, roads_of_player, village_price, villages_of,
    winner_among,
};
use vstd::prelude::*;

verus! {

/// Pays production out to the ledgers of the players, unit by unit. Stops at the first
/// unit that cannot be paid; what was paid before stays paid.
pub fn pay_out(
    players: &Players,
    ledgers: &mut Vec<ResourceList>,
    spoils: &Vec<(String, Resource)>,
) -> (result: Result<(), GameError>)
    ensures
        (final(ledgers)@, match result {
            Ok(_) => None::<GameError>,
            Err(e) => Some(e),
        }) == paid_out(players@, old(ledgers)@, spoils_view(spoils@), spoils.len() as int),
        final(ledgers).len() == old(ledgers).len(),
{
    let ghost given = spoils_view(spoils@);
    let mut i: usize = 0;
    while i < spoils.len()
        invariant
            i <= spoils.len(),
            given == spoils_view(spoils@),
            ledgers.len() == old(ledgers).len(),
            (ledgers@, None::<GameError>) == paid_out(players@, old(ledgers)@, given, i as int),
        decreases spoils.len() - i,
    {
        proof {
            assert(given[i as int] == (spoils@[i as int].0@, spoils@[i as int].1));
        }
        match players.position(&spoils[i].0) {
            None => {
                proof {
                    lemma_paid_out_stops(
                        players@,
                        old(ledgers)@,
                        given,
                        i + 1,
                        spoils.len() as int,
                    );
                }
                return Err(GameError::NoPlayerResources);
            },
            Some(seat) => {
                if seat >= ledgers.len() {
                    proof {
                        lemma_paid_out_stops(
                            players@,
                            old(ledgers)@,
                            given,
                            i + 1,
                            spoils.len() as int,
                        );
                    }
                    return Err(GameError::NoPlayerResources);
                }
                let mut ledger = ledgers[seat];
                let unit = [spoils[i].1];
                proof {
                    assert(unit@ =~= seq![spoils@[i as int].1]);
                }
                match ledger.deposit(unit) {
                    Ok(()) => {
                        ledgers.set(seat, ledger);
                    },
                    Err(e) => {
                        proof {
                            lemma_paid_out_stops(
                                players@,
                                old(ledgers)@,
                                given,
                                i + 1,
                                spoils.len() as int,
                            );
                        }
                        return Err(e);
                    },
                }
            },
        }
        i += 1;
    }
    Ok(())
}

/// Builds the roads asked for, one by one, each paid from the ledger once it is built.
/// Stops at the first that cannot be paid or built; what was built before stays.
pub fn build_roads(
    ledger: &mut ResourceList,
    nodes: &Vec<Node>,
    roads: &mut Vec<Road>,
    key: &String,
    asked: &Vec<usize>,
) -> (result: Result<(), GameError>)
    ensures
        (*final(ledger), road_views(final(roads)@), match result {
            Ok(_) => None::<GameError>,
            Err(e) => Some(e),
        }) == roads_built(
            *old(ledger),
            node_views(nodes@),
            road_views(old(roads)@),
            key@,
            asked@,
            asked.len() as int,
        ),
{
    let mut i: usize = 0;
    while i < asked.len()
        invariant
            i <= asked.len(),
            (*ledger, road_views(roads@), None::<GameError>) == roads_built(
                *old(ledger),
                node_views(nodes@),
                road_views(old(roads)@),
                key@,
                asked@,
                i as int,
            ),
        decreases asked.len() - i,
    {
        let price = [Resource::Block, Resource::Timber];
        proof {
            assert(price@ =~= road_price());
        }
        if !ledger.check(price) {
            proof {
                lemma_roads_built_stops(
                    *old(ledger),
                    node_views(nodes@),
                    road_views(old(roads)@),
                    key@,
                    asked@,
                    i + 1,
                    asked.len() as int,
                );
            }
            return Err(GameError::InsufficientResources);
        }
        match build_road(asked[i], key.clone(), nodes.as_slice(), roads, false) {
            Err(e) => {
                proof {
                    lemma_roads_built_stops(
                        *old(ledger),
                        node_views(nodes@),
                        road_views(old(roads)@),
                        key@,
                        asked@,
                        i + 1,
                        asked.len() as int,
                    );
                }
                return Err(e);
            },
            Ok(()) => {},
        }
        let paid = ledger.deduct(price);
        assert(paid is Ok);
        i += 1;
    }
    Ok(())
}

/// Builds the villages asked for, one by one, each paid from the ledger once it is
/// built. Stops at the first that cannot be paid or built; what was built before stays.
pub fn build_nodes(
    ledger: &mut ResourceList,
    nodes: &mut Vec<Node>,
    roads: &Vec<Road>,
    key: &String,
    asked: &Vec<usize>,
) -> (result: Result<(), GameError>)
    ensures
        (*final(ledger), node_views(final(nodes)@), match result {
            Ok(_) => None::<GameError>,
            Err(e) => Some(e),
        }) == nodes_built(
            *old(ledger),
            node_views(old(nodes)@),
            road_views(roads@),
            key@,
            asked@,
            asked.len() as int,
        ),
{
    let mut i: usize = 0;
    while i < asked.len()
        invariant
            i <= asked.len(),
            (*ledger, node_views(nodes@), None::<GameError>) == nodes_built(
                *old(ledger),
                node_views(old(nodes)@),
                road_views(roads@),
                key@,
                asked@,
                i as int,
            ),
        decreases asked.len() - i,
    {
        let price = [Resource::Block, Resource::Timber, Resource::Fiber, Resource::Cereal];
        proof {
            assert(price@ =~= village_price());
        }
        if !ledger.check(price) {
            proof {
                lemma_nodes_built_stops(
                    *old(ledger),
                    node_views(old(nodes)@),
                    road_views(roads@),
                    key@,
                    asked@,
                    i + 1,
                    asked.len() as int,
                );
            }
            return Err(GameError::InsufficientResources);
        }
        match build_node(asked[i], key.clone(), nodes, roads.as_slice(), false) {
            Err(e) => {
                proof {
                    lemma_nodes_built_stops(
                        *old(ledger),
                        node_views(old(nodes)@),
                        road_views(roads@),
                        key@,
                        asked@,
                        i + 1,
                        asked.len() as int,
                    );
                }
                return Err(e);
            },
            Ok(()) => {},
        }
        let paid = ledger.deduct(price);
        assert(paid is Ok);
        i += 1;
    }
    Ok(())
}

/// The winner on record after every player's villages have been counted, in seating
/// order: each player with enough villages takes the place of whoever was recorded.
pub fn winner_of(
    players: &Players,
    nodes: &Vec<Node>,
    score_to_win: u8,
    recorded: Option<String>,
) -> (winner: Option<String>)
    ensures
        optional_key_view(winner) == winner_among(
            players@.list,
            node_views(nodes@),
            score_to_win as int,
            optional_key_view(recorded),
            players.list.len() as int,
        ),
{
    let mut winner = recorded;
    let mut i: usize = 0;
    while i < players.list.len()
        invariant
            i <= players.list.len(),
            optional_key_view(winner) == winner_among(
                players@.list,
                node_views(nodes@),
                score_to_win as int,
                optional_key_view(recorded),
                i as int,
            ),
        decreases players.list.len() - i,
    {
        proof {
            assert(players@.list[i as int] == players.list@[i as int]@);
        }
        let villages = count_player_nodes(&players.list[i].key, nodes.as_slice());
        if villages >= score_to_win as usize {
            winner = Some(players.list[i].key.clone());
        }
        i += 1;
    }
    winner
}

/// Whether every player owns exactly `n` nodes and exactly `n` roads.
pub fn all_players_have(players: &Players, nodes: &Vec<Node>, roads: &Vec<Road>, n: usize) -> (all:
    bool)
    ensures
        all == forall|i: int|
            0 <= i < players@.list.len() ==> villages_of(
                node_views(nodes@),
                (#[trigger] players@.list[i]).key,
            ) == n && roads_of_player(road_views(roads@), players@.list[i].key) == n,
{
    let mut i: usize = 0;
    while i < players.list.len()
        invariant
            i <= players.list.len(),
            forall|j: int|
                0 <= j < i ==> villages_of(node_views(nodes@), (#[trigger] players@.list[j]).key)
                    == n && roads_of_player(road_views(roads@), players@.list[j].key) == n,
        decreases players.list.len() - i,
    {
        proof {
            assert(players@.list[i as int] == players.list@[i as int]@);
        }
        let villages = count_player_nodes(&players.list[i].key, nodes.as_slice());
        let owned = count_player_roads(&players.list[i].key, roads.as_slice());
        if villages != n || owned != n {
            return false;
        }
        i += 1;
    }
    true
}

/// Whether every player owns a node and a road.
pub fn all_players_have_some(players: &Players, nodes: &Vec<Node>, roads: &Vec<Road>) -> (all: bool)
    ensures
        all == forall|i: int|
            0 <= i < players@.list.len() ==> villages_of(
                node_views(nodes@),
                (#[trigger] players@.list[i]).key,
            ) >= 1 && roads_of_player(road_views(roads@), players@.list[i].key) >= 1,
{
    let mut i: usize = 0;
    while i < players.list.len()
        invariant
            i <= players.list.len(),
            forall|j: int|
                0 <= j < i ==> villages_of(node_views(nodes@), (#[trigger] players@.list[j]).key)
                    >= 1 && roads_of_player(road_views(roads@), players@.list[j].key) >= 1,
        decreases players.list.len() - i,
    {
        proof {
            assert(players@.list[i as int] == players.list@[i as int]@);
        }
        let villages = count_player_nodes(&players.list[i].key, nodes.as_slice());
        let owned = count_player_roads(&players.list[i].key, roads.as_slice());
        if villages < 1 || owned < 1 {
            return false;
        }
        i += 1;
    }
    true
}

/// The bug counts with the keys of the players they belong to, in seating order.
pub fn bugs_with_keys(players: &Players, bugs: &Vec<u8>) -> (keyed: Vec<(String, u8)>)
    requires
        bugs.len() == players.list.len(),
    ensures
        bug_views(keyed@) == bugs_by_key(players@.list, bugs@),
{
    let ghost wanted = bugs_by_key(players@.list, bugs@);
    let mut keyed: Vec<(String, u8)> = Vec::new();
    let mut i: usize = 0;
    while i < bugs.len()
        invariant
            i <= bugs.len(),
            bugs.len() == players.list.len(),
            wanted == bugs_by_key(players@.list, bugs@),
            keyed.len() == i,
            forall|j: int|
                0 <= j < i ==> (#[trigger] keyed@[j]).0@ == players@.list[j].key && keyed@[j].1
                    == bugs@[j],
        decreases bugs.len() - i,
    {
        proof {
            assert(players@.list[i as int] == players.list@[i as int]@);
        }
        keyed.push((players.list[i].key.clone(), bugs[i]));
        i += 1;
    }
    proof {
        assert(bug_views(keyed@) =~= wanted);
    }
    keyed
}

} // verus!
