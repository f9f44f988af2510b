//! The board: hexagons, the nodes at their corners and the roads along their edges.
pub mod counts;
pub mod graph;
pub mod layout;
pub mod pools;

use crate::chance::is_shuffle_of;
use crate::games::hexagon::board::counts::{
    law_node_count, law_road_count, node_count, road_count,
};
use crate::games::hexagon::board::graph::{
    lemma_unique_edges, lemma_unique_points, merged_edges, place_of, raw_corners, raw_edge,
    unique_edges, unique_points, with_graph, within_reach,
};
use crate::games::hexagon::board::layout::{
    centre_of, grid, grid_centroids, half_rows, hexagon_count, law_hexagon_count,
    lemma_grid_is_not_empty, lemma_grid_is_small,
};
use crate::games::hexagon::board::pools::{
    law_one_desert, number_pool, placed, resource_pool, NO_NUMBER,
};
use crate::games::hexagon::resources::Resource;
use crate::search::{as_places, is_value, lemma_first_match_facts, places_matching};
use vstd::prelude::*;

verus! {

/// A point of the board, on the lattice that the centres and corners of hexagons fall on.
///
/// `x` counts halves of a unit of length and `y` counts units of 1/(2·√3), so that every
/// centre and every corner has whole numbers for both. Two coordinates are the same point
/// exactly when both numbers agree.
#[derive(Clone, Copy, Debug, PartialEq, Eq, Structural)]
pub struct Coordinate {
    pub x: i64,
    pub y: i64,
}

/// The centre of a hexagon and the dice number assigned to it.
#[derive(Clone, Copy, Debug, PartialEq, Eq, Structural)]
pub struct Centroid {
    pub loc: Coordinate,
    pub number: u8,
}

/// A tile: its six corners in order, its dice number, and what it yields.
#[derive(Debug, PartialEq)]
pub struct Hexagon {
    pub vertices: Vec<Coordinate>,
    pub number: u8,
    pub resource: Resource,
}

/// A hexagon as contracts see it.
pub struct HexagonView {
    pub vertices: Seq<Coordinate>,
    pub number: u8,
    pub resource: Resource,
}

impl View for Hexagon {
    type V = HexagonView;

    open spec fn view(&self) -> HexagonView {
        HexagonView { vertices: self.vertices@, number: self.number, resource: self.resource }
    }
}

/// What stands on a node.
#[derive(Clone, Copy, Debug, PartialEq, Eq, Structural)]
pub enum BuildingType {
    Village,
    Empty,
}

/// A corner of the board: where it lies, who owns it and what is built on it.
#[derive(Debug, PartialEq)]
pub struct Node {
    pub loc: Coordinate,
    pub player_key: Option<String>,
    pub building_type: BuildingType,
}

/// A node as contracts see it.
pub struct NodeView {
    pub loc: Coordinate,
    pub player_key: Option<Seq<char>>,
    pub building_type: BuildingType,
}

/// An optional key as contracts see it.
pub open spec fn optional_key_view(key: Option<String>) -> Option<Seq<char>> {
    match key {
        Some(k) => Some(k@),
        None => None,
    }
}

impl View for Node {
    type V = NodeView;

    open spec fn view(&self) -> NodeView {
        NodeView {
            loc: self.loc,
            player_key: optional_key_view(self.player_key),
            building_type: self.building_type,
        }
    }
}

/// An edge of the board between two nodes, and who owns it.
#[derive(Debug, PartialEq)]
pub struct Road {
    pub inds: (usize, usize),
    pub player_key: Option<String>,
}

/// A road as contracts see it.
pub struct RoadView {
    pub inds: (int, int),
    pub player_key: Option<Seq<char>>,
}

impl View for Road {
    type V = RoadView;

    open spec fn view(&self) -> RoadView {
        RoadView {
            inds: (self.inds.0 as int, self.inds.1 as int),
            player_key: optional_key_view(self.player_key),
        }
    }
}

/// A copy of an optional key.
pub fn copy_key(key: &Option<String>) -> (copy: Option<String>)
    ensures
        copy == *key,
{
    match key {
        Some(k) => Some(k.clone()),
        None => None,
    }
}

impl Clone for Hexagon {
    fn clone(&self) -> (copy: Hexagon)
        ensures
            copy@ == self@,
    {
        let mut vertices: Vec<Coordinate> = Vec::new();
        let mut i: usize = 0;
        while i < self.vertices.len()
            invariant
                i <= self.vertices.len(),
                vertices@ == self.vertices@.take(i as int),
            decreases self.vertices.len() - i,
        {
            vertices.push(self.vertices[i]);
            proof {
                assert(vertices@ =~= self.vertices@.take(i + 1));
            }
            i += 1;
        }
        proof {
            assert(self.vertices@.take(i as int) =~= self.vertices@);
        }
        Hexagon { vertices, number: self.number, resource: self.resource }
    }
}

impl Clone for Node {
    fn clone(&self) -> (copy: Node)
        ensures
            copy == *self,
    {
        Node {
            loc: self.loc,
            player_key: copy_key(&self.player_key),
            building_type: self.building_type,
        }
    }
}

impl Clone for Road {
    fn clone(&self) -> (copy: Road)
        ensures
            copy == *self,
    {
        Road { inds: self.inds, player_key: copy_key(&self.player_key) }
    }
}

/// The nodes of a list as contracts see them.
pub open spec fn node_views(nodes: Seq<Node>) -> Seq<NodeView> {
    nodes.map_values(|n: Node| n@)
}

/// The roads of a list as contracts see them.
pub open spec fn road_views(roads: Seq<Road>) -> Seq<RoadView> {
    roads.map_values(|r: Road| r@)
}

/// The hexagons of a list as contracts see them.
pub open spec fn hexagon_views(hexagons: Seq<Hexagon>) -> Seq<HexagonView> {
    hexagons.map_values(|h: Hexagon| h@)
}

/// The board of one game.
#[derive(Debug, PartialEq)]
pub struct GameBoard {
    pub centroids: Vec<Centroid>,
    pub nodes: Vec<Node>,
    pub hexagons: Vec<Hexagon>,
    pub roads: Vec<Road>,
    pub bugs: Vec<(String, u8)>,
    pub scorpion_index: Option<usize>,
}

/// A board as contracts see it.
pub struct BoardView {
    pub centroids: Seq<Centroid>,
    pub nodes: Seq<NodeView>,
    pub hexagons: Seq<HexagonView>,
    pub roads: Seq<RoadView>,
    pub bugs: Seq<(Seq<char>, u8)>,
    pub scorpion_index: Option<int>,
}

/// An optional index as contracts see it.
pub open spec fn optional_index_view(index: Option<usize>) -> Option<int> {
    match index {
        Some(i) => Some(i as int),
        None => None,
    }
}

impl View for GameBoard {
    type V = BoardView;

    open spec fn view(&self) -> BoardView {
        BoardView {
            centroids: self.centroids@,
            nodes: node_views(self.nodes@),
            hexagons: hexagon_views(self.hexagons@),
            roads: road_views(self.roads@),
            bugs: self.bugs@.map_values(|b: (String, u8)| (b.0@, b.1)),
            scorpion_index: optional_index_view(self.scorpion_index),
        }
    }
}

impl BoardView {
    /// The board with nothing on it.
    pub open spec fn empty() -> BoardView {
        BoardView {
            centroids: Seq::empty(),
            nodes: Seq::empty(),
            hexagons: Seq::empty(),
            roads: Seq::empty(),
            bugs: Seq::empty(),
            scorpion_index: None,
        }
    }
}

/// The distance between the centres of two hexagons that lie side by side, in units of
/// length.
pub const CENTROID_SPACING: u8 = 100;

/// What one unit of production is: the key of the player who gets it, and its kind.
pub open spec fn spoils_view(spoils: Seq<(String, Resource)>) -> Seq<(Seq<char>, Resource)> {
    spoils.map_values(|s: (String, Resource)| (s.0@, s.1))
}

/// The condition of lying at a corner of this hexagon.
pub open spec fn at_corner_of(hexagon: HexagonView) -> spec_fn(NodeView) -> bool {
    |n: NodeView| hexagon.vertices.contains(n.loc)
}

/// The condition of having a corner at this point.
pub open spec fn has_corner_at(p: Coordinate) -> spec_fn(HexagonView) -> bool {
    |h: HexagonView| h.vertices.contains(p)
}

impl BoardView {
    /// The board that `setup` makes of a width and of the orders that the shuffles gave:
    /// centroids from the grid, resources and numbers from the pools, and the graph.
    pub open spec fn fresh(spacing: int, width: int, resources: Seq<Resource>, numbers: Seq<u8>) -> BoardView {
        with_graph(
            placed(
                BoardView { centroids: grid_centroids(spacing, width), ..BoardView::empty() },
                resources,
                numbers,
            ),
            spacing,
        )
    }

    /// Whether exactly one hexagon is the desert, that hexagon and no other is without a
    /// dice number, and the scorpion sits on it.
    pub open spec fn has_one_desert(self) -> bool {
        &&& self.scorpion_index matches Some(d)
        &&& 0 <= d < self.hexagons.len()
        &&& forall|i: int|
            0 <= i < self.hexagons.len() ==> {
                let hexagon = #[trigger] self.hexagons[i];
                &&& hexagon.resource == Resource::Desert <==> i == d
                &&& hexagon.number == NO_NUMBER <==> i == d
            }
    }

    /// The nodes at the corners of hexagon `i`, in rising order.
    pub open spec fn neighboring_nodes(self, i: int) -> Seq<int> {
        places_matching(self.nodes, at_corner_of(self.hexagons[i]))
    }

    /// The hexagons with a corner at node `i`, in rising order.
    pub open spec fn neighboring_hexagons(self, i: int) -> Seq<int> {
        places_matching(self.hexagons, has_corner_at(self.nodes[i].loc))
    }

    /// Whether hexagon `i` yields when `trigger` comes up: its number is the one rolled
    /// (every number counts where nothing was rolled), the scorpion does not sit on it,
    /// and it is no desert.
    pub open spec fn yields(self, i: int, trigger: Option<u8>) -> bool {
        &&& trigger matches Some(rolled) ==> self.hexagons[i].number == rolled
        &&& self.scorpion_index != Some(i)
        &&& self.hexagons[i].resource != Resource::Desert
    }

    /// What hexagon `i` gives to the owners of the first `m` nodes: one unit of its
    /// resource for each owned node at one of its corners, in the order of the nodes.
    pub open spec fn hexagon_spoils(self, i: int, m: int) -> Seq<(Seq<char>, Resource)>
        decreases m,
    {
        if m <= 0 {
            Seq::empty()
        } else {
            let before = self.hexagon_spoils(i, m - 1);
            let node = self.nodes[m - 1];
            if self.hexagons[i].vertices.contains(node.loc) && node.player_key is Some {
                before.push((node.player_key->0, self.hexagons[i].resource))
            } else {
                before
            }
        }
    }

    /// What the first `upto` hexagons give when `trigger` comes up, hexagon by hexagon.
    pub open spec fn spoils(self, trigger: Option<u8>, upto: int) -> Seq<(Seq<char>, Resource)>
        decreases upto,
    {
        if upto <= 0 {
            Seq::empty()
        } else {
            let before = self.spoils(trigger, upto - 1);
            if self.yields(upto - 1, trigger) {
                before + self.hexagon_spoils(upto - 1, self.nodes.len() as int)
            } else {
                before
            }
        }
    }

    /// What the whole board gives when `trigger` comes up.
    pub open spec fn production(self, trigger: Option<u8>) -> Seq<(Seq<char>, Resource)> {
        self.spoils(trigger, self.hexagons.len() as int)
    }
}

/// Production never hands out the non-producing kind.
pub proof fn law_production_is_never_desert(board: BoardView, trigger: Option<u8>, upto: int)
    ensures
        forall|k: int|
            0 <= k < board.spoils(trigger, upto).len() ==> (#[trigger] board.spoils(
                trigger,
                upto,
            )[k]).1 != Resource::Desert,
    decreases upto,
{
    if upto > 0 {
        law_production_is_never_desert(board, trigger, upto - 1);
        if board.yields(upto - 1, trigger) {
            lemma_hexagon_spoils_kind(board, upto - 1, board.nodes.len() as int);
        }
    }
}

/// What a hexagon gives is of the hexagon's own kind.
pub proof fn lemma_hexagon_spoils_kind(board: BoardView, i: int, m: int)
    ensures
        forall|k: int|
            0 <= k < board.hexagon_spoils(i, m).len() ==> (#[trigger] board.hexagon_spoils(
                i,
                m,
            )[k]).1 == board.hexagons[i].resource,
    decreases m,
{
    if m > 0 {
        lemma_hexagon_spoils_kind(board, i, m - 1);
    }
}

/// A board of odd width with `n` rows on either side of the middle, whatever the shuffles
/// gave, has `1 + 3·n·(n + 1)` hexagons, `6·(n + 1)²` nodes and `3·(n + 1)·(3·n + 2)` roads.
pub proof fn law_board_counts(spacing: int, width: int, resources: Seq<Resource>, numbers: Seq<u8>)
    requires
        1 <= spacing <= 255,
        1 <= width <= 255,
        width % 2 == 1,
    ensures
        BoardView::fresh(spacing, width, resources, numbers).hexagons.len() == hexagon_count(
            half_rows(width),
        ),
        BoardView::fresh(spacing, width, resources, numbers).centroids.len() == hexagon_count(
            half_rows(width),
        ),
        BoardView::fresh(spacing, width, resources, numbers).nodes.len() == node_count(
            half_rows(width),
        ),
        BoardView::fresh(spacing, width, resources, numbers).roads.len() == road_count(
            half_rows(width),
        ),
{
    let laid = BoardView { centroids: grid_centroids(spacing, width), ..BoardView::empty() };
    let sown = placed(laid, resources, numbers);
    law_hexagon_count(width);
    law_node_count(spacing, width);
    law_road_count(spacing, width);
    assert forall|c: int| 0 <= c < sown.centroids.len() implies (#[trigger] sown.centroids[c]).loc
        == grid_centroids(spacing, width)[c].loc by {}
    assert(raw_corners(spacing, sown.centroids) =~= raw_corners(
        spacing,
        grid_centroids(spacing, width),
    ));
}

/// A board made by `setup` keeps the board's invariant.
pub proof fn lemma_fresh_is_wf(spacing: int, width: int, resources: Seq<Resource>, numbers: Seq<u8>)
    requires
        resources.len() == grid(width).len(),
        numbers.len() == grid(width).len(),
    ensures
        BoardView::fresh(spacing, width, resources, numbers).wf(),
        BoardView::fresh(spacing, width, resources, numbers).hexagons.len() == grid(width).len(),
{
    let laid = BoardView { centroids: grid_centroids(spacing, width), ..BoardView::empty() };
    let sown = placed(laid, resources, numbers);
    let board = with_graph(sown, spacing);
    let raw = raw_corners(spacing, sown.centroids);
    lemma_unique_points(raw);
    lemma_unique_edges(merged_edges(raw));
    let points = unique_points(raw);
    let edges = unique_edges(merged_edges(raw));
    lemma_first_match_facts(resources, is_value(Resource::Desert));
    assert forall|j: int| 0 <= j < board.roads.len() implies 0 <= (#[trigger] board.roads[j]).inds.0
        < board.nodes.len() && 0 <= board.roads[j].inds.1 < board.nodes.len() by {
        let edge = edges[j];
        assert(merged_edges(raw).contains(edge));
        let e = choose|e: int| 0 <= e < merged_edges(raw).len() && merged_edges(raw)[e] == edge;
        let from = raw_edge(e).0;
        let to = raw_edge(e).1;
        assert(0 <= from < raw.len() && 0 <= to < raw.len());
        assert(place_of(points, raw[from]) == edge.0);
        assert(place_of(points, raw[to]) == edge.1);
    }
}

impl Clone for GameBoard {
    fn clone(&self) -> (copy: GameBoard)
        ensures
            copy@ == self@,
    {
        let mut centroids: Vec<Centroid> = Vec::new();
        let mut i: usize = 0;
        while i < self.centroids.len()
            invariant
                i <= self.centroids.len(),
                centroids@ == self.centroids@.take(i as int),
            decreases self.centroids.len() - i,
        {
            centroids.push(self.centroids[i]);
            proof {
                assert(centroids@ =~= self.centroids@.take(i + 1));
            }
            i += 1;
        }
        let mut nodes: Vec<Node> = Vec::new();
        let mut i: usize = 0;
        while i < self.nodes.len()
            invariant
                i <= self.nodes.len(),
                nodes@ == self.nodes@.take(i as int),
            decreases self.nodes.len() - i,
        {
            nodes.push(self.nodes[i].clone());
            proof {
                assert(nodes@ =~= self.nodes@.take(i + 1));
            }
            i += 1;
        }
        let mut hexagons: Vec<Hexagon> = Vec::new();
        let mut i: usize = 0;
        while i < self.hexagons.len()
            invariant
                i <= self.hexagons.len(),
                hexagon_views(hexagons@) == hexagon_views(self.hexagons@).take(i as int),
            decreases self.hexagons.len() - i,
        {
            let ghost before = hexagons@;
            hexagons.push(self.hexagons[i].clone());
            proof {
                assert(hexagon_views(hexagons@) =~= hexagon_views(before).push(
                    self.hexagons@[i as int]@,
                ));
                assert(hexagon_views(hexagons@) =~= hexagon_views(self.hexagons@).take(i + 1));
            }
            i += 1;
        }
        let mut roads: Vec<Road> = Vec::new();
        let mut i: usize = 0;
        while i < self.roads.len()
            invariant
                i <= self.roads.len(),
                roads@ == self.roads@.take(i as int),
            decreases self.roads.len() - i,
        {
            roads.push(self.roads[i].clone());
            proof {
                assert(roads@ =~= self.roads@.take(i + 1));
            }
            i += 1;
        }
        let mut bugs: Vec<(String, u8)> = Vec::new();
        let mut i: usize = 0;
        while i < self.bugs.len()
            invariant
                i <= self.bugs.len(),
                bugs@ == self.bugs@.take(i as int),
            decreases self.bugs.len() - i,
        {
            bugs.push((self.bugs[i].0.clone(), self.bugs[i].1));
            proof {
                assert(bugs@ =~= self.bugs@.take(i + 1));
            }
            i += 1;
        }
        proof {
            assert(self.centroids@.take(self.centroids.len() as int) =~= self.centroids@);
            assert(self.nodes@.take(self.nodes.len() as int) =~= self.nodes@);
            assert(hexagon_views(self.hexagons@).take(self.hexagons.len() as int)
                =~= hexagon_views(self.hexagons@));
            assert(self.roads@.take(self.roads.len() as int) =~= self.roads@);
            assert(self.bugs@.take(self.bugs.len() as int) =~= self.bugs@);
        }
        GameBoard {
            centroids,
            nodes,
            hexagons,
            roads,
            bugs,
            scorpion_index: self.scorpion_index,
        }
    }
}

impl GameBoard {
    /// A board with nothing on it.
    pub fn new() -> (board: GameBoard)
        ensures
            board@ == BoardView::empty(),
    {
        let board = GameBoard {
            centroids: Vec::new(),
            nodes: Vec::new(),
            hexagons: Vec::new(),
            roads: Vec::new(),
            bugs: Vec::new(),
            scorpion_index: None,
        };
        proof {
            assert(board@.nodes =~= Seq::empty());
            assert(board@.hexagons =~= Seq::empty());
            assert(board@.roads =~= Seq::empty());
            assert(board@.bugs =~= Seq::empty());
        }
        board
    }

    /// Takes everything off the board.
    pub fn reset(&mut self)
        ensures
            final(self)@ == BoardView::empty(),
    {
        self.centroids.truncate(0);
        self.nodes.truncate(0);
        self.hexagons.truncate(0);
        self.roads.truncate(0);
        self.bugs.truncate(0);
        self.scorpion_index = None;
        proof {
            assert(self@.centroids =~= Seq::empty());
            assert(self@.nodes =~= Seq::empty());
            assert(self@.hexagons =~= Seq::empty());
            assert(self@.roads =~= Seq::empty());
            assert(self@.bugs =~= Seq::empty());
        }
    }

    /// Sets the board up for a game: lays out the hexagons of a board of this width,
    /// gives each a resource and a dice number, and derives the nodes and roads. Whatever
    /// stood on the board before is gone.
    ///
    /// The pools are shuffled, so the outcome is one of many. Whichever it is, it is the
    /// board that some order of the resource pool and some order of the number pool give.
    pub fn setup(&mut self, game_board_width: u8)
        ensures
            exists|resources: Seq<Resource>, numbers: Seq<u8>|
                {
                    &&& is_shuffle_of(
                        resources,
                        resource_pool(grid(game_board_width as int).len() as int),
                    )
                    &&& is_shuffle_of(
                        numbers,
                        number_pool(grid(game_board_width as int).len() as int),
                    )
                    &&& final(self)@ == BoardView::fresh(
                        CENTROID_SPACING as int,
                        game_board_width as int,
                        resources,
                        numbers,
                    )
                },
            final(self).wf(),
            final(self).hexagons.len() == grid(game_board_width as int).len(),
            game_board_width % 2 == 1 ==> final(self).hexagons.len() == hexagon_count(
                half_rows(game_board_width as int),
            ) && final(self).centroids.len() == final(self).hexagons.len() && final(self).nodes.len() == node_count(half_rows(game_board_width as int)) && final(self).roads.len() == road_count(half_rows(game_board_width as int)),
            game_board_width >= 1 ==> final(self)@.has_one_desert(),
    {
        self.reset();
        self.compute_hex_grid_centroids(CENTROID_SPACING, game_board_width);
        let ghost laid = self@;
        proof {
            assert(laid.centroids =~= grid_centroids(
                CENTROID_SPACING as int,
                game_board_width as int,
            ));
            assert(laid == (BoardView {
                centroids: grid_centroids(CENTROID_SPACING as int, game_board_width as int),
                ..BoardView::empty()
            }));
        }
        self.assign_resources_and_rolls();
        let ghost sown = self@;
        let ghost (resources, numbers): (Seq<Resource>, Seq<u8>) = choose|
            resources: Seq<Resource>,
            numbers: Seq<u8>,
        |
            {
                &&& is_shuffle_of(resources, resource_pool(laid.centroids.len() as int))
                &&& is_shuffle_of(numbers, number_pool(laid.centroids.len() as int))
                &&& sown == placed(laid, resources, numbers)
            };
        proof {
            assert(sown.hexagons.len() == laid.centroids.len());
            assert(sown.centroids.len() == laid.centroids.len());
            assert(self.hexagons@.len() == sown.hexagons.len());
            assert forall|i: int| 0 <= i < self.centroids.len() implies (
            #[trigger] self.centroids[i]).loc == laid.centroids[i].loc by {
                assert(sown.centroids[i].loc == laid.centroids[i].loc);
            }
            if game_board_width >= 1 {
                lemma_grid_is_small(
                    game_board_width as int,
                    half_rows(game_board_width as int) + 1,
                );
                assert(grid(game_board_width as int).len() <= 256 * 255) by (nonlinear_arith)
                    requires
                        grid(game_board_width as int).len() <= (half_rows(
                            game_board_width as int,
                        ) + 1 + half_rows(game_board_width as int)) * 255,
                        0 <= half_rows(game_board_width as int) <= 127,
                ;
                assert forall|i: int| 0 <= i < self.centroids.len() implies within_reach(
                    (#[trigger] self.centroids[i]).loc,
                ) by {
                    let cell = grid(game_board_width as int)[i];
                    assert(laid.centroids[i].loc == centre_of(CENTROID_SPACING as int, cell));
                    assert(-127 <= cell.0 <= 127 && 0 <= cell.1 < 255);
                    assert(0 <= 100 * ((if cell.0 < 0 {
                        -cell.0
                    } else {
                        cell.0
                    }) + 2 * cell.1) <= 100 * 800);
                }
            }
        }
        self.compute_nodes_and_roads(CENTROID_SPACING);
        proof {
            vstd::seq_lib::to_multiset_len(resources);
            vstd::seq_lib::to_multiset_len(resource_pool(laid.centroids.len() as int));
            vstd::seq_lib::to_multiset_len(numbers);
            vstd::seq_lib::to_multiset_len(number_pool(laid.centroids.len() as int));
            lemma_fresh_is_wf(
                CENTROID_SPACING as int,
                game_board_width as int,
                resources,
                numbers,
            );
            if game_board_width % 2 == 1 {
                law_hexagon_count(game_board_width as int);
                law_board_counts(
                    CENTROID_SPACING as int,
                    game_board_width as int,
                    resources,
                    numbers,
                );
            }
            if game_board_width >= 1 {
                lemma_grid_is_small(
                    game_board_width as int,
                    half_rows(game_board_width as int) + 1,
                );
                lemma_grid_is_not_empty(game_board_width as int);
                law_one_desert(laid, resources, numbers);
                let d = sown.scorpion_index->0;
                assert forall|i: int| 0 <= i < self@.hexagons.len() implies {
                    let hexagon = #[trigger] self@.hexagons[i];
                    &&& hexagon.resource == Resource::Desert <==> i == d
                    &&& hexagon.number == NO_NUMBER <==> i == d
                } by {
                    assert(self@.hexagons[i].resource == sown.hexagons[i].resource);
                    assert(self@.hexagons[i].number == sown.hexagons[i].number);
                }
            }
        }
    }

    /// Whether the hexagon has a corner at this point.
    fn has_corner(hexagon: &Hexagon, p: Coordinate) -> (found: bool)
        ensures
            found == hexagon@.vertices.contains(p),
    {
        let mut k: usize = 0;
        while k < hexagon.vertices.len()
            invariant
                k <= hexagon.vertices.len(),
                forall|j: int| 0 <= j < k ==> hexagon.vertices@[j] != p,
            decreases hexagon.vertices.len() - k,
        {
            if hexagon.vertices[k].x == p.x && hexagon.vertices[k].y == p.y {
                return true;
            }
            k += 1;
        }
        false
    }

    /// The nodes at the corners of a hexagon, in rising order.
    pub fn find_neighboring_nodes(&self, hex_idx: usize) -> (found: Vec<usize>)
        requires
            hex_idx < self.hexagons.len(),
        ensures
            as_places(found@) == self@.neighboring_nodes(hex_idx as int),
    {
        let ghost nodes = self@.nodes;
        let ghost wanted = at_corner_of(self@.hexagons[hex_idx as int]);
        let mut found: Vec<usize> = Vec::new();
        let mut i: usize = 0;
        while i < self.nodes.len()
            invariant
                i <= self.nodes.len(),
                hex_idx < self.hexagons.len(),
                nodes == self@.nodes,
                wanted == at_corner_of(self@.hexagons[hex_idx as int]),
                as_places(found@) == places_matching(nodes.take(i as int), wanted),
            decreases self.nodes.len() - i,
        {
            proof {
                assert(nodes.take(i + 1).drop_last() =~= nodes.take(i as int));
                assert(self.hexagons@[hex_idx as int]@ == self@.hexagons[hex_idx as int]);
            }
            if Self::has_corner(&self.hexagons[hex_idx], self.nodes[i].loc) {
                let ghost before = found@;
                found.push(i);
                proof {
                    assert(as_places(found@) =~= as_places(before).push(i as int));
                }
            }
            i += 1;
        }
        proof {
            assert(nodes.take(self.nodes.len() as int) =~= nodes);
        }
        found
    }

    /// The hexagons that have a corner at a node, in rising order.
    pub fn find_neighboring_hexagons(&self, node_idx: usize) -> (found: Vec<usize>)
        requires
            node_idx < self.nodes.len(),
        ensures
            as_places(found@) == self@.neighboring_hexagons(node_idx as int),
    {
        let ghost hexagons = self@.hexagons;
        let ghost wanted = has_corner_at(self@.nodes[node_idx as int].loc);
        let p = self.nodes[node_idx].loc;
        let mut found: Vec<usize> = Vec::new();
        let mut i: usize = 0;
        while i < self.hexagons.len()
            invariant
                i <= self.hexagons.len(),
                node_idx < self.nodes.len(),
                p == self@.nodes[node_idx as int].loc,
                hexagons == self@.hexagons,
                wanted == has_corner_at(p),
                as_places(found@) == places_matching(hexagons.take(i as int), wanted),
            decreases self.hexagons.len() - i,
        {
            proof {
                assert(hexagons.take(i + 1).drop_last() =~= hexagons.take(i as int));
                assert(self.hexagons@[i as int]@ == hexagons[i as int]);
            }
            if Self::has_corner(&self.hexagons[i], p) {
                let ghost before = found@;
                found.push(i);
                proof {
                    assert(as_places(found@) =~= as_places(before).push(i as int));
                }
            }
            i += 1;
        }
        proof {
            assert(hexagons.take(self.hexagons.len() as int) =~= hexagons);
        }
        found
    }

    /// What the board gives when `trigger` comes up, as a list of owner and kind.
    fn collect(&self, trigger: Option<u8>) -> (spoils: Vec<(String, Resource)>)
        ensures
            spoils_view(spoils@) == self@.production(trigger),
    {
        let ghost board = self@;
        let mut spoils: Vec<(String, Resource)> = Vec::new();
        let mut i: usize = 0;
        while i < self.hexagons.len()
            invariant
                i <= self.hexagons.len(),
                board == self@,
                spoils_view(spoils@) == board.spoils(trigger, i as int),
            decreases self.hexagons.len() - i,
        {
            let hexagon = &self.hexagons[i];
            proof {
                assert(hexagon@ == board.hexagons[i as int]);
            }
            let rolled = match trigger {
                Some(number) => hexagon.number == number,
                None => true,
            };
            let blocked = match self.scorpion_index {
                Some(s) => s == i,
                None => false,
            };
            let barren = match hexagon.resource {
                Resource::Desert => true,
                _ => false,
            };
            if rolled && !blocked && !barren {
                let ghost before = spoils_view(spoils@);
                let mut m: usize = 0;
                while m < self.nodes.len()
                    invariant
                        m <= self.nodes.len(),
                        i < self.hexagons.len(),
                        board == self@,
                        hexagon == &self.hexagons@[i as int],
                        spoils_view(spoils@) == before + board.hexagon_spoils(i as int, m as int),
                    decreases self.nodes.len() - m,
                {
                    let node = &self.nodes[m];
                    proof {
                        assert(node@ == board.nodes[m as int]);
                        assert(hexagon@ == board.hexagons[i as int]);
                    }
                    if Self::has_corner(hexagon, node.loc) {
                        match &node.player_key {
                            Some(owner) => {
                                let ghost so_far = spoils@;
                                spoils.push((owner.clone(), hexagon.resource));
                                proof {
                                    assert(spoils_view(spoils@) =~= spoils_view(so_far).push(
                                        (owner@, hexagon.resource),
                                    ));
                                    assert(spoils_view(spoils@) =~= before + board.hexagon_spoils(
                                        i as int,
                                        m + 1,
                                    ));
                                }
                            },
                            None => {},
                        }
                    }
                    m += 1;
                }
            }
            i += 1;
        }
        spoils
    }

    /// What the board gives when this number is rolled: from every hexagon with the
    /// number, unless the scorpion sits on it or it is the desert, one unit of its
    /// resource for each owned node at its corners.
    pub fn collect_resources(&self, roll_sum: u8) -> (spoils: Vec<(String, Resource)>)
        ensures
            spoils_view(spoils@) == self@.production(Some(roll_sum)),
    {
        self.collect(Some(roll_sum))
    }

    /// What the board gives for a roll. Another name for `collect_resources`.
    pub fn resolve_roll(&self, roll_sum: u8) -> (spoils: Vec<(String, Resource)>)
        ensures
            spoils_view(spoils@) == self@.production(Some(roll_sum)),
    {
        self.collect(Some(roll_sum))
    }

    /// What the board gives at the end of setup: what every hexagon gives that has no
    /// scorpion on it and is no desert, whatever its number.
    pub fn resolve_setup(&self) -> (spoils: Vec<(String, Resource)>)
        ensures
            spoils_view(spoils@) == self@.production(None),
    {
        self.collect(None)
    }
}

} // verus!
