//! What players can ask for, and the rules for building on the board.
use crate::chance::gen_range_u8;
use crate::error::GameError;
use crate::games::hexagon::board::{
    node_views, optional_key_view, road_views, BuildingType, Node, NodeView, Road, RoadView,
};
use crate::games::hexagon::resources::Resource;
use crate::search::count_matching;
use vstd::prelude::*;

verus! {

/// The actions of the game. `NoAction` stands for "nothing has been done yet".
#[derive(Clone, Copy, Debug, PartialEq, Eq, Structural)]
pub enum Actions {
    PlaceVillageAndRoad,
    RollDice,
    MoveScorpion,
    BuildStuff,
    Trade,
    BuyBug,
    EndTurn,
    NoAction,
}

/// The kinds of thing on the board that a command can point at.
#[derive(Clone, Copy, Debug, PartialEq, Eq, Structural)]
pub enum Target {
    Road,
    Node,
    Hex,
}

/// One command: what to do, who asks, up to five things pointed at, and a trade.
#[derive(Debug)]
pub struct Command {
    pub action: Actions,
    pub player: String,
    pub target: [Option<(Target, usize)>; 5],
    pub trade: Option<(Resource, Resource)>,
}

/// A command as contracts see it.
pub struct CommandView {
    pub action: Actions,
    pub player: Seq<char>,
    pub target: Seq<Option<(Target, usize)>>,
    pub trade: Option<(Resource, Resource)>,
}

impl View for Command {
    type V = CommandView;

    open spec fn view(&self) -> CommandView {
        CommandView {
            action: self.action,
            player: self.player@,
            target: self.target@,
            trade: self.trade,
        }
    }
}

/// The indices that a list of targets names for one kind, in the order they stand.
pub open spec fn targets_of(target: Seq<Option<(Target, usize)>>, kind: Target) -> Seq<usize>
    decreases target.len(),
{
    if target.len() == 0 {
        Seq::empty()
    } else {
        let before = targets_of(target.drop_last(), kind);
        match target.last() {
            Some((t, index)) => if t == kind {
                before.push(index)
            } else {
                before
            },
            None => before,
        }
    }
}

impl CommandView {
    /// The indices named for `kind`.
    pub open spec fn all(self, kind: Target) -> Seq<usize> {
        targets_of(self.target, kind)
    }

    /// How many indices are named for `kind`, and the first of them (0 where there is none).
    pub open spec fn first(self, kind: Target) -> (usize, usize) {
        let named = self.all(kind);
        (
            named.len() as usize,
            if named.len() > 0 {
                named[0]
            } else {
                0
            },
        )
    }
}

impl Command {
    /// A command that points at nothing and trades nothing.
    pub fn new(action: Actions, player: String) -> (command: Command)
        ensures
            command.action == action,
            command.player == player,
            command.target@ == Seq::new(5, |i: int| None::<(Target, usize)>),
            command.trade is None,
            forall|kind: Target| command@.all(kind) == Seq::<usize>::empty(),
    {
        let command = Command { action, player, target: [None, None, None, None, None], trade: None };
        proof {
            assert(command.target@ =~= Seq::new(5, |i: int| None::<(Target, usize)>));
            assert forall|kind: Target| command@.all(kind) == Seq::<usize>::empty() by {
                lemma_no_targets(command.target@, kind);
            }
        }
        command
    }

    /// How many targets of this kind the command names, and the index of the first of
    /// them; 0 where it names none.
    pub fn get_first(&self, cmd_tgt: Target) -> (found: (usize, usize))
        ensures
            found == self@.first(cmd_tgt),
    {
        let mut count: usize = 0;
        let mut first: usize = 0;
        let mut i: usize = 0;
        while i < 5
            invariant
                i <= 5,
                self.target@.len() == 5,
                count == targets_of(self.target@.take(i as int), cmd_tgt).len(),
                count <= i,
                count > 0 ==> first == targets_of(self.target@.take(i as int), cmd_tgt)[0],
                count == 0 ==> first == 0,
            decreases 5 - i,
        {
            proof {
                assert(self.target@.take(i + 1).drop_last() =~= self.target@.take(i as int));
            }
            match self.target[i] {
                Some((t, index)) => {
                    if same_target(t, cmd_tgt) {
                        count += 1;
                        if count == 1 {
                            first = index;
                        }
                    }
                },
                None => {},
            }
            i += 1;
        }
        proof {
            assert(self.target@.take(5) =~= self.target@);
        }
        (count, first)
    }

    /// The indices of all targets of this kind, in the order the command names them.
    pub fn get_all(&self, cmd_tgt: Target) -> (named: Vec<usize>)
        ensures
            named@ == self@.all(cmd_tgt),
    {
        let mut named: Vec<usize> = Vec::new();
        let mut i: usize = 0;
        while i < 5
            invariant
                i <= 5,
                self.target@.len() == 5,
                named@ == targets_of(self.target@.take(i as int), cmd_tgt),
            decreases 5 - i,
        {
            proof {
                assert(self.target@.take(i + 1).drop_last() =~= self.target@.take(i as int));
            }
            match self.target[i] {
                Some((t, index)) => {
                    if same_target(t, cmd_tgt) {
                        named.push(index);
                    }
                },
                None => {},
            }
            i += 1;
        }
        proof {
            assert(self.target@.take(5) =~= self.target@);
        }
        named
    }

    /// The trade that the command names: what is given and what is wanted.
    pub fn get_trade(&self) -> (trade: Result<(Resource, Resource), GameError>)
        ensures
            trade == match self.trade {
                Some(pair) => Ok::<(Resource, Resource), GameError>(pair),
                None => Err::<(Resource, Resource), GameError>(GameError::NoTradeSpecified),
            },
    {
        match self.trade {
            Some(pair) => Ok(pair),
            None => Err(GameError::NoTradeSpecified),
        }
    }
}

/// A list with nothing in its places names no index.
pub proof fn lemma_no_targets(target: Seq<Option<(Target, usize)>>, kind: Target)
    requires
        forall|i: int| 0 <= i < target.len() ==> target[i] is None,
    ensures
        targets_of(target, kind) == Seq::<usize>::empty(),
    decreases target.len(),
{
    if target.len() > 0 {
        lemma_no_targets(target.drop_last(), kind);
    }
}

/// Whether two target kinds are the same.
pub fn same_target(a: Target, b: Target) -> (same: bool)
    ensures
        same == (a == b),
{
    match (a, b) {
        (Target::Road, Target::Road) => true,
        (Target::Node, Target::Node) => true,
        (Target::Hex, Target::Hex) => true,
        _ => false,
    }
}

/// Whether two actions are the same.
pub fn same_action(a: Actions, b: Actions) -> (same: bool)
    ensures
        same == (a == b),
{
    match (a, b) {
        (Actions::PlaceVillageAndRoad, Actions::PlaceVillageAndRoad) => true,
        (Actions::RollDice, Actions::RollDice) => true,
        (Actions::MoveScorpion, Actions::MoveScorpion) => true,
        (Actions::BuildStuff, Actions::BuildStuff) => true,
        (Actions::Trade, Actions::Trade) => true,
        (Actions::BuyBug, Actions::BuyBug) => true,
        (Actions::EndTurn, Actions::EndTurn) => true,
        (Actions::NoAction, Actions::NoAction) => true,
        _ => false,
    }
}

/// The actions open to the player whose turn it is, given the last action carried out
/// and the sum of the last roll.
pub open spec fn allowed_after(last_action: Actions, roll_sum: int) -> Seq<Actions> {
    match last_action {
        Actions::PlaceVillageAndRoad => seq![Actions::RollDice],
        Actions::RollDice => if roll_sum == 7 {
            seq![Actions::MoveScorpion]
        } else {
            seq![Actions::Trade, Actions::BuildStuff, Actions::BuyBug, Actions::EndTurn]
        },
        Actions::MoveScorpion => seq![
            Actions::Trade,
            Actions::BuildStuff,
            Actions::BuyBug,
            Actions::EndTurn,
        ],
        Actions::BuildStuff => seq![
            Actions::Trade,
            Actions::BuildStuff,
            Actions::BuyBug,
            Actions::EndTurn,
        ],
        Actions::Trade => seq![
            Actions::Trade,
            Actions::BuildStuff,
            Actions::BuyBug,
            Actions::EndTurn,
        ],
        Actions::BuyBug => seq![Actions::MoveScorpion],
        Actions::EndTurn => seq![Actions::RollDice],
        Actions::NoAction => seq![Actions::NoAction],
    }
}

/// The actions open to the player whose turn it is during play.
pub fn next_allowed_actions(last_action: &Actions, roll_sum: u8) -> (allowed: Vec<Actions>)
    ensures
        allowed@ == allowed_after(*last_action, roll_sum as int),
{
    let allowed = match last_action {
        Actions::PlaceVillageAndRoad => vec![Actions::RollDice],
        Actions::RollDice => {
            if roll_sum == 7 {
                vec![Actions::MoveScorpion]
            } else {
                vec![Actions::Trade, Actions::BuildStuff, Actions::BuyBug, Actions::EndTurn]
            }
        },
        Actions::MoveScorpion => vec![
            Actions::Trade,
            Actions::BuildStuff,
            Actions::BuyBug,
            Actions::EndTurn,
        ],
        Actions::BuildStuff => vec![
            Actions::Trade,
            Actions::BuildStuff,
            Actions::BuyBug,
            Actions::EndTurn,
        ],
        Actions::Trade => vec![
            Actions::Trade,
            Actions::BuildStuff,
            Actions::BuyBug,
            Actions::EndTurn,
        ],
        Actions::BuyBug => vec![Actions::MoveScorpion],
        Actions::EndTurn => vec![Actions::RollDice],
        Actions::NoAction => vec![Actions::NoAction],
    };
    proof {
        assert(allowed@ =~= allowed_after(*last_action, roll_sum as int));
    }
    allowed
}

/// The fewest pips that a die shows.
pub const FEWEST_PIPS: u8 = 1;

/// The most pips that a die shows.
pub const MOST_PIPS: u8 = 6;

/// Throws two dice. Each shows between one and six pips.
pub fn roll_dice() -> (roll: (u8, u8))
    ensures
        FEWEST_PIPS <= roll.0 <= MOST_PIPS,
        FEWEST_PIPS <= roll.1 <= MOST_PIPS,
{
    let mut generator = rand::thread_rng();
    let first = gen_range_u8(&mut generator, FEWEST_PIPS, MOST_PIPS);
    let second = gen_range_u8(&mut generator, FEWEST_PIPS, MOST_PIPS);
    (first, second)
}

/// Who owns the node with this index; nobody where there is no such node.
pub open spec fn owner_at(nodes: Seq<NodeView>, i: int) -> Option<Seq<char>> {
    if 0 <= i < nodes.len() {
        nodes[i].player_key
    } else {
        None
    }
}

/// Whether a road ends at this node.
pub open spec fn touches(road: RoadView, node: int) -> bool {
    road.inds.0 == node || road.inds.1 == node
}

/// The end of a road that is not `node`.
pub open spec fn other_end(road: RoadView, node: int) -> int {
    if road.inds.0 == node {
        road.inds.1
    } else {
        road.inds.0
    }
}

/// Whether the player owns a road that ends at this node.
pub open spec fn owns_road_at(roads: Seq<RoadView>, key: Seq<char>, node: int) -> bool {
    exists|j: int|
        #![trigger roads[j]]
        0 <= j < roads.len() && roads[j].player_key == Some(key) && touches(roads[j], node)
}

/// Whether a road lies next to something the player owns: a building at one of its
/// ends, or a road that shares one of its ends.
pub open spec fn road_is_connected(
    road: RoadView,
    key: Seq<char>,
    nodes: Seq<NodeView>,
    roads: Seq<RoadView>,
) -> bool {
    ||| owner_at(nodes, road.inds.0) == Some(key)
    ||| owner_at(nodes, road.inds.1) == Some(key)
    ||| owns_road_at(roads, key, road.inds.0)
    ||| owns_road_at(roads, key, road.inds.1)
}

/// Whether some node one road away from this node is owned by anybody.
pub open spec fn has_built_neighbor(node: int, nodes: Seq<NodeView>, roads: Seq<RoadView>) -> bool {
    exists|j: int|
        #![trigger roads[j]]
        0 <= j < roads.len() && touches(roads[j], node) && owner_at(
            nodes,
            other_end(roads[j], node),
        ) is Some
}

/// What `build_road` does: the roads after the build, or the reason for refusing it.
pub open spec fn road_build_outcome(
    road_index: int,
    key: Seq<char>,
    nodes: Seq<NodeView>,
    roads: Seq<RoadView>,
    is_setup: bool,
) -> Result<Seq<RoadView>, GameError> {
    if !(0 <= road_index < roads.len()) {
        Err(GameError::InvalidRoadIndex)
    } else if roads[road_index].player_key is Some {
        Err(GameError::RoadOccupied)
    } else if !is_setup && !road_is_connected(roads[road_index], key, nodes, roads) {
        Err(GameError::RoadNotConnected)
    } else {
        Ok(roads.update(road_index, RoadView { player_key: Some(key), ..roads[road_index] }))
    }
}

/// What `build_node` does: the nodes after the build, or the reason for refusing it.
pub open spec fn node_build_outcome(
    node_index: int,
    key: Seq<char>,
    nodes: Seq<NodeView>,
    roads: Seq<RoadView>,
    is_setup: bool,
) -> Result<Seq<NodeView>, GameError> {
    if !(0 <= node_index < nodes.len()) {
        Err(GameError::InvalidNodeIndex)
    } else if nodes[node_index].player_key is Some {
        Err(GameError::NodeOccupied)
    } else if has_built_neighbor(node_index, nodes, roads) {
        Err(GameError::TwoSpaceRule)
    } else if !is_setup && !owns_road_at(roads, key, node_index) {
        Err(GameError::NodeNotConnected)
    } else {
        Ok(
            nodes.update(
                node_index,
                NodeView {
                    player_key: Some(key),
                    building_type: BuildingType::Village,
                    ..nodes[node_index]
                },
            ),
        )
    }
}

/// A road that somebody owns cannot be built on: the attempt is refused as occupied,
/// whoever makes it and in whatever phase. A refusal changes nothing, so the same attempt
/// is refused in the same way however often it is made.
pub proof fn law_occupied_road_is_refused(
    road_index: int,
    key: Seq<char>,
    nodes: Seq<NodeView>,
    roads: Seq<RoadView>,
    is_setup: bool,
)
    requires
        0 <= road_index < roads.len(),
        roads[road_index].player_key is Some,
    ensures
        road_build_outcome(road_index, key, nodes, roads, is_setup) == Err::<
            Seq<RoadView>,
            GameError,
        >(GameError::RoadOccupied),
{
}

/// A road that has been built is occupied: every later attempt to build on it is refused.
pub proof fn law_built_road_stays_built(
    road_index: int,
    key: Seq<char>,
    nodes: Seq<NodeView>,
    roads: Seq<RoadView>,
    is_setup: bool,
    later_key: Seq<char>,
    later_nodes: Seq<NodeView>,
    later_setup: bool,
)
    ensures
        road_build_outcome(road_index, key, nodes, roads, is_setup) matches Ok(after)
            ==> road_build_outcome(road_index, later_key, later_nodes, after, later_setup) == Err::<
            Seq<RoadView>,
            GameError,
        >(GameError::RoadOccupied),
{
}

/// A node that somebody owns cannot be built on: the attempt is refused as occupied,
/// whoever makes it and in whatever phase.
pub proof fn law_occupied_node_is_refused(
    node_index: int,
    key: Seq<char>,
    nodes: Seq<NodeView>,
    roads: Seq<RoadView>,
    is_setup: bool,
)
    requires
        0 <= node_index < nodes.len(),
        nodes[node_index].player_key is Some,
    ensures
        node_build_outcome(node_index, key, nodes, roads, is_setup) == Err::<
            Seq<NodeView>,
            GameError,
        >(GameError::NodeOccupied),
{
}

/// A node that has been built on is occupied: every later attempt to build on it is
/// refused.
pub proof fn law_built_node_stays_built(
    node_index: int,
    key: Seq<char>,
    nodes: Seq<NodeView>,
    roads: Seq<RoadView>,
    is_setup: bool,
    later_key: Seq<char>,
    later_roads: Seq<RoadView>,
    later_setup: bool,
)
    ensures
        node_build_outcome(node_index, key, nodes, roads, is_setup) matches Ok(after)
            ==> node_build_outcome(node_index, later_key, after, later_roads, later_setup) == Err::<
            Seq<NodeView>,
            GameError,
        >(GameError::NodeOccupied),
{
}

/// Whether an owner is the player with this key.
pub fn is_owner(owner: &Option<String>, key: &String) -> (owned: bool)
    ensures
        owned == (optional_key_view(*owner) == Some(key@)),
{
    match owner {
        Some(k) => *k == *key,
        None => false,
    }
}

/// Whether the player owns the node with this index.
fn owns_node(nodes: &[Node], i: usize, key: &String) -> (owned: bool)
    ensures
        owned == (owner_at(node_views(nodes@), i as int) == Some(key@)),
{
    if i < nodes.len() {
        is_owner(&nodes[i].player_key, key)
    } else {
        false
    }
}

/// Whether the player owns a road that ends at this node.
fn has_road_at(roads: &[Road], key: &String, node: usize) -> (found: bool)
    ensures
        found == owns_road_at(road_views(roads@), key@, node as int),
{
    let ghost views = road_views(roads@);
    let mut i: usize = 0;
    while i < roads.len()
        invariant
            i <= roads.len(),
            views == road_views(roads@),
            forall|j: int|
                #![trigger views[j]]
                0 <= j < i ==> !(views[j].player_key == Some(key@) && touches(
                    views[j],
                    node as int,
                )),
        decreases roads.len() - i,
    {
        let road = &roads[i];
        if (road.inds.0 == node || road.inds.1 == node) && is_owner(&road.player_key, key) {
            proof {
                assert(views[i as int].player_key == Some(key@) && touches(
                    views[i as int],
                    node as int,
                ));
            }
            return true;
        }
        i += 1;
    }
    false
}

/// Whether some node one road away from this node is owned by anybody.
fn neighbor_is_built(node: usize, nodes: &[Node], roads: &[Road]) -> (found: bool)
    ensures
        found == has_built_neighbor(node as int, node_views(nodes@), road_views(roads@)),
{
    let ghost views = road_views(roads@);
    let ghost corners = node_views(nodes@);
    let mut i: usize = 0;
    while i < roads.len()
        invariant
            i <= roads.len(),
            views == road_views(roads@),
            corners == node_views(nodes@),
            forall|j: int|
                #![trigger views[j]]
                0 <= j < i ==> !(touches(views[j], node as int) && owner_at(
                    corners,
                    other_end(views[j], node as int),
                ) is Some),
        decreases roads.len() - i,
    {
        let road = &roads[i];
        if road.inds.0 == node || road.inds.1 == node {
            let other = if road.inds.0 == node {
                road.inds.1
            } else {
                road.inds.0
            };
            if other < nodes.len() && nodes[other].player_key.is_some() {
                proof {
                    assert(touches(views[i as int], node as int) && owner_at(
                        corners,
                        other_end(views[i as int], node as int),
                    ) is Some);
                }
                return true;
            }
        }
        i += 1;
    }
    false
}

/// Builds a road for a player. The road must exist and be free; outside setup it must
/// also lie next to a building or a road of the same player.
pub fn build_road(
    road_index: usize,
    player_key: String,
    nodes: &[Node],
    roads: &mut Vec<Road>,
    is_setup: bool,
) -> (result: Result<(), GameError>)
    ensures
        match road_build_outcome(
            road_index as int,
            player_key@,
            node_views(nodes@),
            road_views(old(roads)@),
            is_setup,
        ) {
            Ok(after) => result is Ok && road_views(final(roads)@) == after,
            Err(e) => result == Err::<(), GameError>(e) && *final(roads) == *old(roads),
        },
{
    if road_index >= roads.len() {
        return Err(GameError::InvalidRoadIndex);
    }
    if roads[road_index].player_key.is_some() {
        return Err(GameError::RoadOccupied);
    }
    let inds = roads[road_index].inds;
    if !is_setup {
        let connected = owns_node(nodes, inds.0, &player_key) || owns_node(
            nodes,
            inds.1,
            &player_key,
        ) || has_road_at(roads.as_slice(), &player_key, inds.0) || has_road_at(
            roads.as_slice(),
            &player_key,
            inds.1,
        );
        if !connected {
            return Err(GameError::RoadNotConnected);
        }
    }
    let ghost key = player_key@;
    roads.set(road_index, Road { inds, player_key: Some(player_key) });
    proof {
        let before = road_views(old(roads)@);
        assert(road_views(roads@) =~= before.update(
            road_index as int,
            RoadView { player_key: Some(key), ..before[road_index as int] },
        ));
    }
    Ok(())
}

/// Builds a village for a player. The node must exist and be free, and no node one road
/// away may be built on; outside setup a road of the same player must end at it.
pub fn build_node(
    node_index: usize,
    player_key: String,
    nodes: &mut Vec<Node>,
    roads: &[Road],
    is_setup: bool,
) -> (result: Result<(), GameError>)
    ensures
        match node_build_outcome(
            node_index as int,
            player_key@,
            node_views(old(nodes)@),
            road_views(roads@),
            is_setup,
        ) {
            Ok(after) => result is Ok && node_views(final(nodes)@) == after,
            Err(e) => result == Err::<(), GameError>(e) && *final(nodes) == *old(nodes),
        },
{
    if node_index >= nodes.len() {
        return Err(GameError::InvalidNodeIndex);
    }
    if nodes[node_index].player_key.is_some() {
        return Err(GameError::NodeOccupied);
    }
    if neighbor_is_built(node_index, nodes.as_slice(), roads) {
        return Err(GameError::TwoSpaceRule);
    }
    if !is_setup && !has_road_at(roads, &player_key, node_index) {
        return Err(GameError::NodeNotConnected);
    }
    let loc = nodes[node_index].loc;
    let ghost key = player_key@;
    nodes.set(
        node_index,
        Node { loc, player_key: Some(player_key), building_type: BuildingType::Village },
    );
    proof {
        let before = node_views(old(nodes)@);
        assert(node_views(nodes@) =~= before.update(
            node_index as int,
            NodeView {
                player_key: Some(key),
                building_type: BuildingType::Village,
                ..before[node_index as int]
            },
        ));
    }
    Ok(())
}

/// The condition of being a node that this player owns.
pub open spec fn node_owned_by(key: Seq<char>) -> spec_fn(NodeView) -> bool {
    |n: NodeView| n.player_key == Some(key)
}

/// The condition of being a road that this player owns.
pub open spec fn road_owned_by(key: Seq<char>) -> spec_fn(RoadView) -> bool {
    |r: RoadView| r.player_key == Some(key)
}

/// How many nodes the player owns.
pub fn count_player_nodes(player_key: &String, nodes: &[Node]) -> (owned: usize)
    ensures
        owned == count_matching(node_views(nodes@), node_owned_by(player_key@)),
{
    let ghost views = node_views(nodes@);
    let ghost wanted = node_owned_by(player_key@);
    let mut owned: usize = 0;
    let mut i: usize = 0;
    while i < nodes.len()
        invariant
            i <= nodes.len(),
            views == node_views(nodes@),
            wanted == node_owned_by(player_key@),
            owned == count_matching(views.take(i as int), wanted),
            owned <= i,
        decreases nodes.len() - i,
    {
        proof {
            assert(views.take(i + 1).drop_last() =~= views.take(i as int));
        }
        if is_owner(&nodes[i].player_key, player_key) {
            owned += 1;
        }
        i += 1;
    }
    proof {
        assert(views.take(nodes.len() as int) =~= views);
    }
    owned
}

/// How many roads the player owns.
pub fn count_player_roads(player_key: &String, roads: &[Road]) -> (owned: usize)
    ensures
        owned == count_matching(road_views(roads@), road_owned_by(player_key@)),
{
    let ghost views = road_views(roads@);
    let ghost wanted = road_owned_by(player_key@);
    let mut owned: usize = 0;
    let mut i: usize = 0;
    while i < roads.len()
        invariant
            i <= roads.len(),
            views == road_views(roads@),
            wanted == road_owned_by(player_key@),
            owned == count_matching(views.take(i as int), wanted),
            owned <= i,
        decreases roads.len() - i,
    {
        proof {
            assert(views.take(i + 1).drop_last() =~= views.take(i as int));
        }
        if is_owner(&roads[i].player_key, player_key) {
            owned += 1;
        }
        i += 1;
    }
    proof {
        assert(views.take(roads.len() as int) =~= views);
    }
    owned
}

} // verus!
