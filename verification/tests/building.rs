use hexagon_island::error::GameError;
use hexagon_island::games::hexagon::actions::{
    build_node, build_road, count_player_nodes, count_player_roads, next_allowed_actions,
    roll_dice, Actions, Command, Target,
};
use hexagon_island::games::hexagon::board::pools::{number_pool_for, resource_pool_for};
use hexagon_island::games::hexagon::board::{BuildingType, GameBoard};
use hexagon_island::games::hexagon::resources::Resource;

// The sum total of rolling two dice can range between 2 and 12.
// There are 6 * 6 = 36 possible combinations of the two die rolls.
#[test]
fn dice_distribution() {
    const NUM_TRIALS: usize = 10000;

    struct Bin {
        count: usize,
        expected_value: f64,
        standard_deviation: f64,
    }

    let mut histogram: Vec<Bin> = Vec::new();
    for idx in 0..=10usize {
        let fidx = idx as f64;
        let expected_probability = if idx + 2 < 8 { fidx + 1.0 } else { 11.0 - fidx } / 36.0;
        let expected_value = NUM_TRIALS as f64 * expected_probability;
        let standard_deviation = f64::sqrt(expected_value * (1.0 - expected_probability));
        histogram.push(Bin { count: 0, expected_value, standard_deviation });
    }

    for _trial in 0..NUM_TRIALS {
        let roll_result = roll_dice();
        let roll_sum = roll_result.0 + roll_result.1;
        histogram[roll_sum as usize - 2].count += 1;
    }

    let mut number_of_outliers = 0;
    for cv in histogram.iter() {
        let lower_bound = f64::round(cv.expected_value - 4.0 * cv.standard_deviation) as usize;
        let upper_bound = f64::round(cv.expected_value + 4.0 * cv.standard_deviation) as usize;
        if cv.count < lower_bound || cv.count > upper_bound {
            number_of_outliers += 1;
        }
    }

    assert!(number_of_outliers == 0);
}

#[test]
fn each_die_shows_one_to_six() {
    let mut seen = [false; 6];
    for _ in 0..2000 {
        let (first, second) = roll_dice();
        assert!((1..=6).contains(&first));
        assert!((1..=6).contains(&second));
        seen[first as usize - 1] = true;
        seen[second as usize - 1] = true;
    }
    assert_eq!(seen, [true; 6]);
}

fn count_built_roads(board: &GameBoard) -> usize {
    board.roads.iter().filter(|road| road.player_key.is_some()).count()
}

fn count_built_nodes(board: &GameBoard) -> usize {
    board.nodes.iter().filter(|node| node.player_key.is_some()).count()
}

#[test]
fn build_a_road() {
    let mut board = GameBoard::new();
    board.setup(5);

    assert!(count_built_roads(&board) == 0);

    let node_index = 0;
    let player_key = String::from("key1");
    let _status = build_node(node_index, player_key, &mut board.nodes, &board.roads, true);

    let road_index = 0;
    let player_key = String::from("key1");
    let _status = build_road(road_index, player_key, &board.nodes, &mut board.roads, false);

    assert_eq!(count_built_roads(&board), 1);
}

#[test]
fn build_on_a_node() {
    let mut board = GameBoard::new();
    board.setup(5);

    assert!(count_built_nodes(&board) == 0);

    let node_index = 0;
    let player_key = String::from("key1");
    let _status = build_node(node_index, player_key, &mut board.nodes, &board.roads, true);

    assert_eq!(count_built_nodes(&board), 1);
    assert_eq!(board.nodes[0].building_type, BuildingType::Village);
    assert_eq!(board.nodes[0].player_key, Some(String::from("key1")));
}

#[test]
fn node_building_errors() {
    let mut board = GameBoard::new();
    board.setup(5);

    let node_index = 10000000;
    let player_key = String::from("key1");
    let is_setup = true;
    let status = build_node(node_index, player_key, &mut board.nodes, &board.roads, is_setup);
    assert_eq!(status, Err(GameError::InvalidNodeIndex));
    assert_eq!(status.unwrap_err().message(), "Cannot make building; invalid node index.");

    let node_index = 0;
    let player_key = String::from("key1");
    let is_setup = true;
    let status = build_node(node_index, player_key, &mut board.nodes, &board.roads, is_setup);
    assert_eq!(status, Ok(()));

    let node_index = 0;
    let player_key = String::from("key1");
    let is_setup = true;
    let status = build_node(node_index, player_key, &mut board.nodes, &board.roads, is_setup);
    assert_eq!(status, Err(GameError::NodeOccupied));
    assert_eq!(
        status.unwrap_err().message(),
        "Cannot make building; there is already something there."
    );

    let node_index = 1;
    let player_key = String::from("key1");
    let is_setup = true;
    let status = build_node(node_index, player_key, &mut board.nodes, &board.roads, is_setup);
    assert_eq!(status, Err(GameError::TwoSpaceRule));
    assert_eq!(
        status.unwrap_err().message(),
        "Cannot make building; you must respect the two-space rule."
    );

    let node_index = 10;
    let player_key = String::from("key1");
    let is_setup = false;
    let status = build_node(node_index, player_key, &mut board.nodes, &board.roads, is_setup);
    assert_eq!(status, Err(GameError::NodeNotConnected));
    assert_eq!(
        status.unwrap_err().message(),
        "Cannot make building; after initial setup you must build next to roads that you own."
    );
}

#[test]
fn road_building_errors() {
    let mut board = GameBoard::new();
    board.setup(5);

    let road_index = 10000000;
    let player_key = String::from("key1");
    let status = build_road(road_index, player_key, &board.nodes, &mut board.roads, false);
    assert_eq!(status, Err(GameError::InvalidRoadIndex));
    assert_eq!(status.unwrap_err().message(), "Cannot build road; invalid road index.");

    let node_index = 0;
    let player_key = String::from("key1");
    let is_setup = true;
    let _status = build_node(node_index, player_key, &mut board.nodes, &board.roads, is_setup);

    let road_index = 0;
    let player_key = String::from("key1");
    let status = build_road(road_index, player_key, &board.nodes, &mut board.roads, false);
    assert_eq!(status, Ok(()));

    let road_index = 0;
    let player_key = String::from("key1");
    let status = build_road(road_index, player_key, &board.nodes, &mut board.roads, false);
    assert_eq!(status, Err(GameError::RoadOccupied));
    assert_eq!(
        status.unwrap_err().message(),
        "Cannot build road; there is already something there."
    );

    let road_index = 10;
    let player_key = String::from("key1");
    let status = build_road(road_index, player_key, &board.nodes, &mut board.roads, false);
    assert_eq!(status, Err(GameError::RoadNotConnected));
    assert_eq!(
        status.unwrap_err().message(),
        "Roads have to be built next to other roads or buildings you own."
    );

    let road_index = 1;
    let player_key = String::from("key1");
    let status = build_road(road_index, player_key, &board.nodes, &mut board.roads, false);
    assert_eq!(status, Ok(()));
}

fn fixed_board(width: u8) -> GameBoard {
    let mut board = GameBoard::new();
    board.compute_hex_grid_centroids(100, width);
    let tiles = board.centroids.len();
    board.place_pools(resource_pool_for(tiles), number_pool_for(tiles));
    board.compute_nodes_and_roads(100);
    board
}

#[test]
fn building_on_an_occupied_target_keeps_failing() {
    let mut board = fixed_board(3);
    assert_eq!(build_node(4, String::from("a"), &mut board.nodes, &board.roads, true), Ok(()));
    assert_eq!(build_road(4, String::from("a"), &board.nodes, &mut board.roads, true), Ok(()));
    let nodes_before = board.nodes.clone();
    let roads_before = board.roads.clone();
    for _ in 0..3 {
        for key in ["a", "b"] {
            for is_setup in [true, false] {
                assert_eq!(
                    build_node(4, String::from(key), &mut board.nodes, &board.roads, is_setup),
                    Err(GameError::NodeOccupied)
                );
                assert_eq!(
                    build_road(4, String::from(key), &board.nodes, &mut board.roads, is_setup),
                    Err(GameError::RoadOccupied)
                );
            }
        }
    }
    assert_eq!(board.nodes, nodes_before);
    assert_eq!(board.roads, roads_before);
}

#[test]
fn a_road_may_continue_a_road() {
    let mut board = fixed_board(3);
    // Road 0 joins nodes 5 and 0; road 1 joins nodes 0 and 1; road 3 joins nodes 2 and 3.
    assert_eq!(board.roads[0].inds, (5, 0));
    assert_eq!(board.roads[1].inds, (0, 1));
    assert_eq!(board.roads[3].inds, (2, 3));
    assert_eq!(build_road(0, String::from("a"), &board.nodes, &mut board.roads, true), Ok(()));
    assert_eq!(
        build_road(3, String::from("a"), &board.nodes, &mut board.roads, false),
        Err(GameError::RoadNotConnected)
    );
    assert_eq!(
        build_road(1, String::from("b"), &board.nodes, &mut board.roads, false),
        Err(GameError::RoadNotConnected)
    );
    assert_eq!(build_road(1, String::from("a"), &board.nodes, &mut board.roads, false), Ok(()));
    assert_eq!(build_node(1, String::from("a"), &mut board.nodes, &board.roads, false), Ok(()));
    assert_eq!(
        build_node(3, String::from("a"), &mut board.nodes, &board.roads, false),
        Err(GameError::NodeNotConnected)
    );
    assert_eq!(count_player_nodes(&String::from("a"), &board.nodes), 1);
    assert_eq!(count_player_roads(&String::from("a"), &board.roads), 2);
    assert_eq!(count_player_roads(&String::from("b"), &board.roads), 0);
}

#[test]
fn command_targets() {
    let mut command = Command::new(Actions::BuildStuff, String::from("key1"));
    assert_eq!(command.get_first(Target::Road), (0, 0));
    assert_eq!(command.get_all(Target::Road), Vec::<usize>::new());
    command.target[0] = Some((Target::Road, 7));
    command.target[1] = Some((Target::Node, 3));
    command.target[3] = Some((Target::Road, 2));
    command.target[4] = Some((Target::Road, 7));
    assert_eq!(command.get_first(Target::Road), (3, 7));
    assert_eq!(command.get_first(Target::Node), (1, 3));
    assert_eq!(command.get_first(Target::Hex), (0, 0));
    assert_eq!(command.get_all(Target::Road), vec![7, 2, 7]);
    assert_eq!(command.get_all(Target::Node), vec![3]);
    assert_eq!(command.get_all(Target::Hex), Vec::<usize>::new());
}

#[test]
fn command_trade() {
    let mut command = Command::new(Actions::Trade, String::from("key1"));
    assert_eq!(command.get_trade(), Err(GameError::NoTradeSpecified));
    assert_eq!(
        GameError::NoTradeSpecified.message(),
        "No resources were specified in the trade."
    );
    command.trade = Some((Resource::Rock, Resource::Fiber));
    assert_eq!(command.get_trade(), Ok((Resource::Rock, Resource::Fiber)));
}

#[test]
fn allowed_action_table() {
    let free = vec![Actions::Trade, Actions::BuildStuff, Actions::BuyBug, Actions::EndTurn];
    for sum in [2u8, 7, 12] {
        assert_eq!(
            next_allowed_actions(&Actions::PlaceVillageAndRoad, sum),
            vec![Actions::RollDice]
        );
        assert_eq!(next_allowed_actions(&Actions::MoveScorpion, sum), free);
        assert_eq!(next_allowed_actions(&Actions::BuildStuff, sum), free);
        assert_eq!(next_allowed_actions(&Actions::Trade, sum), free);
        assert_eq!(next_allowed_actions(&Actions::BuyBug, sum), vec![Actions::MoveScorpion]);
        assert_eq!(next_allowed_actions(&Actions::EndTurn, sum), vec![Actions::RollDice]);
        assert_eq!(next_allowed_actions(&Actions::NoAction, sum), vec![Actions::NoAction]);
    }
    assert_eq!(next_allowed_actions(&Actions::RollDice, 7), vec![Actions::MoveScorpion]);
    assert_eq!(next_allowed_actions(&Actions::RollDice, 6), free);
    assert_eq!(next_allowed_actions(&Actions::RollDice, 8), free);
}
