//! What production owes to whom: one unit for every owned node at a corner of a hexagon
//! that yields.
use crate::error::GameError;
use crate::games::base::players::{has_key, PlayersView};
use crate::games::hexagon::actions::{Actions, CommandView};
use crate::games::hexagon::board::{
    law_production_is_never_desert, BoardView, HexagonView, NodeView,
};
use crate::games::hexagon::resources::{
    lemma_tally_uniform, lemma_tally_zero, tally, Resource, ResourceList,
};
use crate::games::hexagon::rules::{paid_out, villages_of, IslandView};
use crate::search::{
    count_matching, lemma_count_matching_concat, lemma_count_matching_push,
    lemma_first_match_facts,
};
use vstd::prelude::*;

verus! {

/// The condition of being a unit of this kind for the player in this seat.
pub open spec fn unit_for(players: PlayersView, seat: int, kind: Resource) -> spec_fn(
    (Seq<char>, Resource),
) -> bool {
    |unit: (Seq<char>, Resource)| players.seat_of_key(unit.0) == Some(seat) && unit.1 == kind
}

/// The condition of being a node at a corner of this hexagon that the player in this
/// seat owns.
pub open spec fn owned_corner(hexagon: HexagonView, players: PlayersView, seat: int) -> spec_fn(
    NodeView,
) -> bool {
    |node: NodeView|
        hexagon.vertices.contains(node.loc) && node.player_key is Some && players.seat_of_key(
            node.player_key->0,
        ) == Some(seat)
}

/// The units of `kind` that the first `upto` hexagons owe to the player in `seat` when
/// `trigger` comes up: for every hexagon of that kind that yields, one unit for every
/// node at one of its corners that the player owns.
pub open spec fn units_due(
    board: BoardView,
    players: PlayersView,
    seat: int,
    kind: Resource,
    trigger: Option<u8>,
    upto: int,
) -> nat
    decreases upto,
{
    if upto <= 0 {
        0
    } else {
        units_due(board, players, seat, kind, trigger, upto - 1) + if board.yields(
            upto - 1,
            trigger,
        ) && board.hexagons[upto - 1].resource == kind {
            count_matching(board.nodes, owned_corner(board.hexagons[upto - 1], players, seat))
        } else {
            0
        }
    }
}

/// Whether every node that has an owner is owned by a player at the table.
pub open spec fn owners_are_seated(board: BoardView, players: PlayersView) -> bool {
    forall|m: int|
        0 <= m < board.nodes.len() && (#[trigger] board.nodes[m]).player_key is Some
            ==> players.seat_of_key(board.nodes[m].player_key->0) is Some
}

/// What one hexagon hands out is, for each player and kind, one unit for every owned
/// node at its corners if the hexagon is of that kind, and nothing otherwise; and every
/// unit goes to the owner of a node.
pub proof fn lemma_hexagon_spoils_count(
    board: BoardView,
    players: PlayersView,
    seat: int,
    kind: Resource,
    i: int,
    m: int,
)
    requires
        0 <= m <= board.nodes.len(),
    ensures
        count_matching(board.hexagon_spoils(i, m), unit_for(players, seat, kind)) == if board.hexagons[i].resource
            == kind {
            count_matching(board.nodes.take(m), owned_corner(board.hexagons[i], players, seat))
        } else {
            0
        },
        owners_are_seated(board, players) ==> forall|k: int|
            0 <= k < board.hexagon_spoils(i, m).len() ==> players.seat_of_key(
                (#[trigger] board.hexagon_spoils(i, m)[k]).0,
            ) is Some,
    decreases m,
{
    if m > 0 {
        lemma_hexagon_spoils_count(board, players, seat, kind, i, m - 1);
        let before = board.hexagon_spoils(i, m - 1);
        let node = board.nodes[m - 1];
        let wanted = owned_corner(board.hexagons[i], players, seat);
        assert(board.nodes.take(m).drop_last() =~= board.nodes.take(m - 1));
        assert(board.nodes.take(m).last() == node);
        if board.hexagons[i].vertices.contains(node.loc) && node.player_key is Some {
            let unit = (node.player_key->0, board.hexagons[i].resource);
            lemma_count_matching_push(before, unit, unit_for(players, seat, kind));
            if owners_are_seated(board, players) {
                assert forall|k: int| 0 <= k < before.push(unit).len() implies players.seat_of_key(
                    (#[trigger] before.push(unit)[k]).0,
                ) is Some by {
                    if k < before.len() {
                        assert(before.push(unit)[k] == before[k]);
                    }
                }
            }
        }
    } else {
        assert(board.nodes.take(0) =~= Seq::<NodeView>::empty());
    }
}

/// What the board hands out is, for each player and kind, what its hexagons owe; every
/// unit goes to the owner of a node, and no unit is of the non-producing kind.
pub proof fn lemma_spoils_count(
    board: BoardView,
    players: PlayersView,
    seat: int,
    kind: Resource,
    trigger: Option<u8>,
    upto: int,
)
    ensures
        count_matching(board.spoils(trigger, upto), unit_for(players, seat, kind)) == units_due(
            board,
            players,
            seat,
            kind,
            trigger,
            upto,
        ),
        owners_are_seated(board, players) ==> forall|k: int|
            0 <= k < board.spoils(trigger, upto).len() ==> players.seat_of_key(
                (#[trigger] board.spoils(trigger, upto)[k]).0,
            ) is Some,
    decreases upto,
{
    if upto > 0 {
        lemma_spoils_count(board, players, seat, kind, trigger, upto - 1);
        if board.yields(upto - 1, trigger) {
            let before = board.spoils(trigger, upto - 1);
            let added = board.hexagon_spoils(upto - 1, board.nodes.len() as int);
            lemma_hexagon_spoils_count(
                board,
                players,
                seat,
                kind,
                upto - 1,
                board.nodes.len() as int,
            );
            lemma_count_matching_concat(before, added, unit_for(players, seat, kind));
            assert(board.nodes.take(board.nodes.len() as int) =~= board.nodes);
            if owners_are_seated(board, players) {
                assert forall|k: int| 0 <= k < (before + added).len() implies players.seat_of_key(
                    (#[trigger] (before + added)[k]).0,
                ) is Some by {
                    if k < before.len() {
                        assert((before + added)[k] == before[k]);
                    } else {
                        assert((before + added)[k] == added[k - before.len()]);
                    }
                }
            }
        }
    }
}

/// Whether the ledgers have room for what a list of units brings: no counter of any
/// player would pass the largest value it can hold.
pub open spec fn have_room(
    players: PlayersView,
    ledgers: Seq<ResourceList>,
    spoils: Seq<(Seq<char>, Resource)>,
) -> bool {
    forall|seat: int, kind: Resource|
        0 <= seat < ledgers.len() ==> ledgers[seat].amount(kind) + #[trigger] count_matching(
            spoils,
            unit_for(players, seat, kind),
        ) <= u16::MAX
}

/// Where every unit goes to a player with a ledger, no unit is of the non-producing
/// kind and the ledgers have room, paying out does not stop, and every player's
/// counter of every kind grows by the number of units of that kind for that player.
pub proof fn lemma_paid_out_in_full(
    players: PlayersView,
    ledgers: Seq<ResourceList>,
    spoils: Seq<(Seq<char>, Resource)>,
    upto: int,
)
    requires
        0 <= upto <= spoils.len(),
        forall|k: int|
            0 <= k < upto ==> (#[trigger] spoils[k]).1 != Resource::Desert && (players.seat_of_key(
                spoils[k].0,
            ) matches Some(seat) && seat < ledgers.len()),
        have_room(players, ledgers, spoils.take(upto)),
    ensures
        paid_out(players, ledgers, spoils, upto).1 is None,
        paid_out(players, ledgers, spoils, upto).0.len() == ledgers.len(),
        forall|seat: int, kind: Resource|
            0 <= seat < ledgers.len() ==> (#[trigger] paid_out(
                players,
                ledgers,
                spoils,
                upto,
            ).0[seat].amount(kind)) == ledgers[seat].amount(kind) + count_matching(
                spoils.take(upto),
                unit_for(players, seat, kind),
            ),
    decreases upto,
{
    if upto == 0 {
        assert(spoils.take(0) =~= Seq::<(Seq<char>, Resource)>::empty());
    } else {
        let unit = spoils[upto - 1];
        let front = spoils.take(upto - 1);
        assert(spoils.take(upto) =~= front.push(unit));
        assert forall|seat: int, kind: Resource| 0 <= seat < ledgers.len() implies ledgers[seat].amount(
            kind,
        ) + #[trigger] count_matching(front, unit_for(players, seat, kind)) <= u16::MAX by {
            lemma_count_matching_push(front, unit, unit_for(players, seat, kind));
            assert(ledgers[seat].amount(kind) + count_matching(
                spoils.take(upto),
                unit_for(players, seat, kind),
            ) <= u16::MAX);
        }
        lemma_paid_out_in_full(players, ledgers, spoils, upto - 1);
        let (paid, stopped) = paid_out(players, ledgers, spoils, upto - 1);
        let to = players.seat_of_key(unit.0)->0;
        let batch = seq![unit.1];
        assert(!batch.contains(Resource::Desert)) by {
            lemma_tally_uniform(batch, unit.1, Resource::Desert);
            lemma_tally_zero(batch, Resource::Desert);
        }
        assert forall|kind: Resource| #[trigger]
            paid[to].amount(kind) + tally(batch, kind)
                <= u16::MAX by {
            lemma_tally_uniform(batch, unit.1, kind);
            lemma_count_matching_push(front, unit, unit_for(players, to, kind));
            assert(ledgers[to].amount(kind) + count_matching(
                spoils.take(upto),
                unit_for(players, to, kind),
            ) <= u16::MAX);
            assert(paid[to].amount(kind) == ledgers[to].amount(kind) + count_matching(
                front,
                unit_for(players, to, kind),
            ));
        }
        assert(paid[to].has_room_for(batch));
        let fuller = paid[to].plus(batch);
        let after = paid.update(to, fuller);
        assert(paid_out(players, ledgers, spoils, upto) == (after, None::<GameError>));
        assert forall|seat: int, kind: Resource| 0 <= seat < ledgers.len() implies (#[trigger] after[seat].amount(
            kind,
        )) == ledgers[seat].amount(kind) + count_matching(
            spoils.take(upto),
            unit_for(players, seat, kind),
        ) by {
            lemma_count_matching_push(front, unit, unit_for(players, seat, kind));
            lemma_tally_uniform(batch, unit.1, kind);
            assert(paid[seat].amount(kind) == ledgers[seat].amount(kind) + count_matching(
                front,
                unit_for(players, seat, kind),
            ));
            if seat == to {
                assert(paid[to].amount(kind) + tally(batch, kind)
                    <= u16::MAX);
            }
        }
    }
}

/// The end of setup. Once every player has placed two villages and two roads, the
/// player who ends the turn starts play: the phase is play, the round is counted on,
/// the turn stays where it is, and every player's counter of every kind has grown by
/// one unit for every pair of a node that the player owns and a hexagon of that kind at
/// whose corner the node lies, unless the scorpion sits on the hexagon. Nothing is paid
/// for the desert.
///
/// This holds where the round counter can count on, every owner of a node sits at the
/// table, and the ledgers have room for what they are owed.
pub proof fn law_setup_ends_in_play(game: IslandView, command: CommandView, roll: (u8, u8))
    requires
        game.wf(),
        game.phase is Setup,
        game.refusal(command) is None,
        command.action == Actions::EndTurn,
        game.last_action == Actions::PlaceVillageAndRoad,
        game.players.list.len() > 0,
        game.all_have(2),
        game.round < u16::MAX,
        owners_are_seated(game.board, game.players),
        forall|seat: int, kind: Resource|
            0 <= seat < game.players.list.len() ==> game.player_resources[seat].amount(kind)
                + #[trigger] units_due(
                game.board,
                game.players,
                seat,
                kind,
                None,
                game.board.hexagons.len() as int,
            ) <= u16::MAX,
    ensures
        game.after(command, roll).1 is Ok,
        game.after(command, roll).0.phase is Play,
        game.after(command, roll).0.round == game.round + 1,
        game.after(command, roll).0.players == game.players,
        game.after(command, roll).0.board == game.board,
        game.after(command, roll).0.last_action == Actions::EndTurn,
        game.after(command, roll).0.player_resources.len() == game.player_resources.len(),
        forall|seat: int, kind: Resource|
            0 <= seat < game.players.list.len() ==> (#[trigger] game.after(
                command,
                roll,
            ).0.player_resources[seat].amount(kind)) == game.player_resources[seat].amount(kind)
                + units_due(
                game.board,
                game.players,
                seat,
                kind,
                None,
                game.board.hexagons.len() as int,
            ),
        forall|seat: int|
            0 <= seat < game.players.list.len() ==> units_due(
                game.board,
                game.players,
                seat,
                Resource::Desert,
                None,
                game.board.hexagons.len() as int,
            ) == 0,
{
    let board = game.board;
    let players = game.players;
    let hexagons = board.hexagons.len() as int;
    let spoils = board.production(None);
    // With somebody at the table, two of each is not one of each.
    assert(!game.all_have(1)) by {
        let first = players.list[0];
        assert(villages_of(board.nodes, first.key) == 2);
    }
    law_production_is_never_desert(board, None, hexagons);
    assert forall|k: int| 0 <= k < spoils.len() implies (#[trigger] spoils[k]).1
        != Resource::Desert && (players.seat_of_key(spoils[k].0) matches Some(seat) && seat
        < game.player_resources.len()) by {
        lemma_spoils_count(board, players, 0, Resource::Block, None, hexagons);
        lemma_first_match_facts(players.list, has_key(spoils[k].0));
    }
    assert(spoils.take(spoils.len() as int) =~= spoils);
    assert forall|seat: int, kind: Resource| 0 <= seat < game.player_resources.len() implies game.player_resources[seat].amount(
        kind,
    ) + #[trigger] count_matching(spoils, unit_for(players, seat, kind)) <= u16::MAX by {
        lemma_spoils_count(board, players, seat, kind, None, hexagons);
        assert(game.player_resources[seat].amount(kind) + units_due(
            board,
            players,
            seat,
            kind,
            None,
            hexagons,
        ) <= u16::MAX);
    }
    lemma_paid_out_in_full(players, game.player_resources, spoils, spoils.len() as int);
    let after = game.after(command, roll).0;
    assert forall|seat: int, kind: Resource| 0 <= seat < players.list.len() implies (#[trigger] after.player_resources[seat].amount(
        kind,
    )) == game.player_resources[seat].amount(kind) + units_due(
        board,
        players,
        seat,
        kind,
        None,
        hexagons,
    ) by {
        lemma_spoils_count(board, players, seat, kind, None, hexagons);
    }
    assert forall|seat: int| 0 <= seat < players.list.len() implies units_due(
        board,
        players,
        seat,
        Resource::Desert,
        None,
        hexagons,
    ) == 0 by {
        lemma_no_desert_is_due(board, players, seat, None, hexagons);
    }
}

/// Nothing is owed of the non-producing kind.
pub proof fn lemma_no_desert_is_due(
    board: BoardView,
    players: PlayersView,
    seat: int,
    trigger: Option<u8>,
    upto: int,
)
    ensures
        units_due(board, players, seat, Resource::Desert, trigger, upto) == 0,
    decreases upto,
{
    if upto > 0 {
        lemma_no_desert_is_due(board, players, seat, trigger, upto - 1);
    }
}

} // verus!
