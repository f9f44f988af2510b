use hexagon_island::games::hexagon::actions::roll_dice;
use hexagon_island::games::hexagon::board::graph::{corner, find_point};
use hexagon_island::games::hexagon::board::pools::{
    find_desert, find_no_number, number_pool_for, resource_pool_for, NO_NUMBER,
};
use hexagon_island::games::hexagon::board::{BuildingType, Centroid, Coordinate, GameBoard};
use hexagon_island::games::hexagon::resources::Resource::{
    Block, Cereal, Desert, Fiber, Rock, Timber,
};
use hexagon_island::games::hexagon::resources::{Resource, ResourceList};

fn resource_counts(board: &GameBoard) -> (usize, usize, usize, usize, usize, usize) {
    let mut counts = (0, 0, 0, 0, 0, 0);
    for hex in board.hexagons.iter() {
        match hex.resource {
            Resource::Block => counts.0 += 1,
            Resource::Rock => counts.1 += 1,
            Resource::Timber => counts.2 += 1,
            Resource::Fiber => counts.3 += 1,
            Resource::Cereal => counts.4 += 1,
            Resource::Desert => counts.5 += 1,
        }
    }
    counts
}

fn number_counts(board: &GameBoard) -> [usize; 13] {
    let mut counts = [0; 13];
    for hex in board.hexagons.iter() {
        counts[hex.number as usize] += 1;
    }
    counts
}

#[test]
fn board_setup() {
    let mut board = GameBoard::new();
    board.setup(5);

    assert_eq!(board.centroids.len(), 19);
    assert_eq!(board.hexagons.len(), 19);
    assert_eq!(board.nodes.len(), 54);
    assert_eq!(board.roads.len(), 72);

    assert_eq!(resource_counts(&board), (3, 3, 4, 4, 4, 1));

    assert!(board.is_wf());

    // desert, two, three, ..., twelve
    assert_eq!(number_counts(&board), [0, 1, 1, 2, 2, 2, 2, 0, 2, 2, 2, 2, 1]);
}

#[test]
fn should_find_neighboring_nodes() {
    let mut board = GameBoard::new();
    board.setup(5);

    let hex_idx = 0;
    let node_indices = board.find_neighboring_nodes(hex_idx);
    assert_eq!(node_indices, [0, 1, 2, 3, 4, 5]);

    let hex_idx = 1;
    let node_indices = board.find_neighboring_nodes(hex_idx);
    assert_eq!(node_indices, [1, 2, 6, 7, 8, 9]);
}

#[test]
fn should_find_neighboring_hexagons() {
    let mut board = GameBoard::new();
    board.setup(5);

    let node_idx = 0;
    let hexagon_indices = board.find_neighboring_hexagons(node_idx);
    assert_eq!(hexagon_indices, [0, 3, 4]);
}

fn build_everywhere(board: &mut GameBoard, player_key: &str) {
    for ind in 0..board.nodes.len() {
        board.nodes[ind].player_key = Some(String::from(player_key));
        board.nodes[ind].building_type = BuildingType::Village;
    }
}

fn rolled(board: &GameBoard, roll_sum: u8) -> ResourceList {
    let mut list = ResourceList::new();
    for (i, hex) in board.hexagons.iter().enumerate() {
        if hex.number == roll_sum && Some(i) != board.scorpion_index {
            match hex.resource {
                Resource::Block => list.block += 6,
                Resource::Rock => list.rock += 6,
                Resource::Timber => list.timber += 6,
                Resource::Fiber => list.fiber += 6,
                Resource::Cereal => list.cereal += 6,
                Resource::Desert => (),
            }
        }
    }
    list
}

fn take(list: &mut ResourceList, resource: Resource) {
    match resource {
        Resource::Block => list.block -= 1,
        Resource::Rock => list.rock -= 1,
        Resource::Timber => list.timber -= 1,
        Resource::Fiber => list.fiber -= 1,
        Resource::Cereal => list.cereal -= 1,
        Resource::Desert => (),
    }
}

#[test]
fn should_collect_rolled_resources() {
    let mut board = GameBoard::new();
    board.setup(5);

    // Build a village on each node
    build_everywhere(&mut board, "key_1");

    // Roll the dice
    let roll_result = roll_dice();
    let roll_sum = roll_result.0 + roll_result.1;

    // Each hexagon that matches the roll should contribute six resources
    let mut rolled_resources = rolled(&board, roll_sum);

    // Call resolve_roll() and use this to decrement rolled_resources
    let spoils = board.resolve_roll(roll_sum);
    for (_player_key, resource) in spoils {
        take(&mut rolled_resources, resource);
    }

    assert_eq!(rolled_resources, ResourceList::new());
}

#[test]
fn scorpion_should_block_resources() {
    let mut board = GameBoard::new();
    board.setup(5);

    // Build a village on each node
    build_everywhere(&mut board, "key_1");

    for ind in 0..board.hexagons.len() {
        // Move the scorpion
        board.scorpion_index = Some(ind);

        // Set the die so that it equals the number of the hexagon with the scorpion
        let roll_sum = board.hexagons[ind].number;
        match roll_sum {
            2..=12 => {
                let mut rolled_resources = rolled(&board, roll_sum);

                let spoils = board.resolve_roll(roll_sum);
                for (_player_key, resource) in spoils {
                    take(&mut rolled_resources, resource);
                }

                assert_eq!(rolled_resources, ResourceList::new());
            }
            _ => (),
        }
    }
}

fn fixed_board(width: u8) -> GameBoard {
    let mut board = GameBoard::new();
    board.compute_hex_grid_centroids(100, width);
    let tiles = board.centroids.len();
    board.place_pools(resource_pool_for(tiles), number_pool_for(tiles));
    board.compute_nodes_and_roads(100);
    board
}

#[test]
fn hexagon_node_and_road_counts() {
    // width, hexagons, nodes, roads
    let known = [(1u8, 1usize, 6usize, 6usize), (3, 7, 24, 30), (5, 19, 54, 72), (7, 37, 96, 132)];
    for (width, hexagons, nodes, roads) in known {
        let board = fixed_board(width);
        let n = (width as usize - 1) / 2;
        assert_eq!(hexagons, 1 + 3 * n * (n + 1));
        assert_eq!(nodes, 6 * (n + 1) * (n + 1));
        assert_eq!(roads, 3 * (n + 1) * (3 * n + 2));
        assert_eq!(board.centroids.len(), hexagons);
        assert_eq!(board.hexagons.len(), hexagons);
        assert_eq!(board.nodes.len(), nodes);
        assert_eq!(board.roads.len(), roads);
        // Euler's formula for a patch of hexagons: nodes - roads + hexagons = 1.
        assert_eq!(board.nodes.len() + board.hexagons.len(), board.roads.len() + 1);
    }
}

#[test]
fn one_desert_without_number_for_any_width() {
    for width in [1u8, 3, 5, 7, 9] {
        for _ in 0..5 {
            let mut board = GameBoard::new();
            board.setup(width);
            let deserts: Vec<usize> = (0..board.hexagons.len())
                .filter(|i| board.hexagons[*i].resource == Resource::Desert)
                .collect();
            let blanks: Vec<usize> = (0..board.hexagons.len())
                .filter(|i| board.hexagons[*i].number == NO_NUMBER)
                .collect();
            assert_eq!(deserts.len(), 1);
            assert_eq!(blanks, deserts);
            assert_eq!(board.scorpion_index, Some(deserts[0]));
            for (hexagon, centroid) in board.hexagons.iter().zip(board.centroids.iter()) {
                assert_eq!(hexagon.number, centroid.number);
                assert_eq!(hexagon.vertices.len(), 6);
            }
        }
    }
}

#[test]
fn setup_shuffles_the_pools() {
    // A shuffle that left the pools as they were would put the desert last every time.
    let mut orders = Vec::new();
    for _ in 0..20 {
        let mut board = GameBoard::new();
        board.setup(5);
        let order: Vec<Resource> = board.hexagons.iter().map(|hex| hex.resource).collect();
        let mut sorted = resource_counts(&board);
        sorted.5 = 1;
        assert_eq!(sorted, (3, 3, 4, 4, 4, 1));
        orders.push(order);
    }
    assert!(orders.iter().any(|order| *order != resource_pool_for(19)));
    assert!(orders.iter().any(|order| *order != orders[0]));
}

#[test]
fn pools_before_shuffling() {
    assert_eq!(resource_pool_for(0), Vec::<Resource>::new());
    assert_eq!(resource_pool_for(1), vec![Desert]);
    assert_eq!(resource_pool_for(7), vec![Block, Rock, Timber, Timber, Cereal, Fiber, Desert]);
    assert_eq!(
        resource_pool_for(19),
        vec![
            Block, Block, Block, Rock, Rock, Rock, Timber, Timber, Timber, Timber, Cereal,
            Cereal, Cereal, Cereal, Fiber, Fiber, Fiber, Fiber, Desert
        ]
    );
    assert_eq!(number_pool_for(0), Vec::<u8>::new());
    assert_eq!(number_pool_for(1), vec![1]);
    assert_eq!(number_pool_for(7), vec![3, 4, 5, 6, 8, 9, 1]);
    assert_eq!(
        number_pool_for(19),
        vec![2, 3, 3, 4, 4, 5, 5, 6, 6, 8, 8, 9, 9, 10, 10, 11, 11, 12, 1]
    );
}

#[test]
fn placing_pools_moves_the_blank_to_the_desert() {
    let mut board = GameBoard::new();
    board.compute_hex_grid_centroids(100, 3);
    assert_eq!(board.centroids.len(), 7);
    let resources = vec![Block, Rock, Desert, Fiber, Fiber, Block, Rock];
    let numbers = vec![3, 4, 5, 6, 8, 1, 9];
    assert_eq!(find_desert(&resources), Some(2));
    assert_eq!(find_no_number(&numbers), Some(5));
    board.place_pools(resources.clone(), numbers);
    let placed: Vec<u8> = board.hexagons.iter().map(|hex| hex.number).collect();
    assert_eq!(placed, vec![3, 4, 1, 6, 8, 5, 9]);
    let kinds: Vec<Resource> = board.hexagons.iter().map(|hex| hex.resource).collect();
    assert_eq!(kinds, resources);
    let on_centroids: Vec<u8> = board.centroids.iter().map(|c| c.number).collect();
    assert_eq!(on_centroids, placed);
    assert_eq!(board.scorpion_index, Some(2));
}

#[test]
fn centroids_lie_on_the_lattice() {
    let mut board = GameBoard::new();
    board.compute_hex_grid_centroids(100, 3);
    let at = |x: i64, y: i64| Centroid { loc: Coordinate { x, y }, number: 0 };
    assert_eq!(
        board.centroids,
        vec![
            at(100, -300),
            at(300, -300),
            at(0, 0),
            at(200, 0),
            at(400, 0),
            at(100, 300),
            at(300, 300)
        ]
    );
    let mut empty = GameBoard::new();
    empty.compute_hex_grid_centroids(100, 0);
    assert_eq!(empty.centroids.len(), 0);
}

#[test]
fn corners_go_round_the_centre() {
    let centre = Coordinate { x: 200, y: 0 };
    let around: Vec<Coordinate> = (0..6).map(|k| corner(100, centre, k)).collect();
    assert_eq!(
        around,
        vec![
            Coordinate { x: 200, y: 200 },
            Coordinate { x: 300, y: 100 },
            Coordinate { x: 300, y: -100 },
            Coordinate { x: 200, y: -200 },
            Coordinate { x: 100, y: -100 },
            Coordinate { x: 100, y: 100 }
        ]
    );
    assert_eq!(find_point(&around, Coordinate { x: 300, y: -100 }), Some(2));
    assert_eq!(find_point(&around, Coordinate { x: 300, y: 0 }), None);
}

#[test]
fn roads_are_unique_and_join_nodes() {
    let board = fixed_board(5);
    for (i, road) in board.roads.iter().enumerate() {
        assert!(road.inds.0 < board.nodes.len());
        assert!(road.inds.1 < board.nodes.len());
        assert_ne!(road.inds.0, road.inds.1);
        for other in board.roads.iter().skip(i + 1) {
            assert_ne!(road.inds, other.inds);
            assert_ne!(road.inds, (other.inds.1, other.inds.0));
        }
    }
    for (i, node) in board.nodes.iter().enumerate() {
        for other in board.nodes.iter().skip(i + 1) {
            assert_ne!(node.loc, other.loc);
        }
    }
    // The first hexagon keeps its own six edges, the second adds five.
    let first: Vec<(usize, usize)> = board.roads.iter().take(11).map(|r| r.inds).collect();
    assert_eq!(
        first,
        vec![(5, 0), (0, 1), (1, 2), (2, 3), (3, 4), (4, 5), (1, 6), (6, 7), (7, 8), (8, 9), (9, 2)]
    );
}

#[test]
fn setup_production_skips_the_desert_and_the_scorpion() {
    let mut board = fixed_board(3);
    build_everywhere(&mut board, "key_1");
    // The desert is the last hexagon and the scorpion sits on it: six others yield.
    assert_eq!(board.scorpion_index, Some(6));
    let spoils = board.resolve_setup();
    assert_eq!(spoils.len(), 36);
    assert!(spoils.iter().all(|(key, resource)| key == "key_1" && *resource != Resource::Desert));
    board.scorpion_index = Some(0);
    assert_eq!(board.resolve_setup().len(), 30);
    assert_eq!(board.collect_resources(3).len(), 0);
    assert_eq!(board.collect_resources(4), vec![(String::from("key_1"), Resource::Rock); 6]);
    assert_eq!(board.collect_resources(1).len(), 0);
    board.nodes[7].player_key = None;
    assert_eq!(board.find_neighboring_nodes(1), vec![1, 2, 6, 7, 8, 9]);
    assert_eq!(board.collect_resources(4).len(), 5);
}

#[test]
fn reset_empties_the_board() {
    let mut board = GameBoard::new();
    board.setup(5);
    board.reset();
    assert_eq!(board, GameBoard::new());
    let copy = fixed_board(3).clone();
    assert_eq!(copy, fixed_board(3));
}
