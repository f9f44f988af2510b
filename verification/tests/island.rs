use hexagon_island::error::GameError;
use hexagon_island::games::base::players::Players;
use hexagon_island::games::base::traits::Game;
use hexagon_island::games::base::Phase;
use hexagon_island::games::hexagon::actions::{Actions, Command, Target};
use hexagon_island::games::hexagon::board::pools::{number_pool_for, resource_pool_for};
use hexagon_island::games::hexagon::board::GameBoard;
use hexagon_island::games::hexagon::resources::{Resource, ResourceList};
use hexagon_island::games::hexagon::{Config, HexagonIsland};

fn expected_initial_state() -> HexagonIsland {
    HexagonIsland {
        phase: Phase::Boot,
        round: 0,
        players: Players { list: Vec::new(), active_player: None, cardinality: 0 },
        last_action: Actions::NoAction,
        config: Config { num_players: 2, score_to_win: 10, game_board_width: 5 },
        roll_result: (0, 0),
        player_colors: Vec::new(),
        player_resources: Vec::new(),
        bugs: Vec::new(),
        has_most_bugs: None,
        board: GameBoard::new(),
        the_winner: None,
    }
}

#[test]
fn initial_state() {
    let game = HexagonIsland::new();
    assert_eq!(game, expected_initial_state())
}

#[test]
fn a_game_with_choices() {
    let config = Config { num_players: 3, score_to_win: 7, game_board_width: 7 };
    let mut game = HexagonIsland::with_config(config);
    assert!(game.is_wf());
    assert_eq!(game.config, config);
    assert_eq!(game.phase, Phase::Boot);
    game.add_player("key1", "name1", "socket_id1").unwrap();
    game.add_player("key2", "name2", "socket_id2").unwrap();
    assert_eq!(game.phase, Phase::Boot);
    assert_eq!(game.board, GameBoard::new());
    game.add_player("key3", "name3", "socket_id3").unwrap();
    assert_eq!(game.phase, Phase::Setup);
    assert_eq!(game.board.hexagons.len(), 37);
    assert_eq!(game.player_resources, vec![ResourceList::new(); 3]);
    assert_eq!(game.bugs, vec![0, 0, 0]);
    assert_eq!(game.player_colors[2], "#228B22");
    assert!(game.is_wf());
    // Resetting keeps the choices and nothing else.
    game.reset();
    assert_eq!(game, HexagonIsland::with_config(config));
}

#[test]
fn a_game_changed_by_hand_can_be_tested() {
    let mut game = HexagonIsland::new();
    game.add_player("key1", "name1", "socket_id1").unwrap();
    game.add_player("key2", "name2", "socket_id2").unwrap();
    assert!(game.is_wf());
    game.roll_result = (7, 1);
    assert!(!game.is_wf());
    game.roll_result = (6, 1);
    assert!(game.is_wf());
    game.bugs.pop();
    assert!(!game.is_wf());
    game.bugs.push(0);
    let spare = game.board.roads[3].inds;
    game.board.roads[5].inds = (spare.1, spare.0);
    assert!(!game.board.is_wf());
    assert!(!game.is_wf());
}

#[test]
fn test_game_configuration() {
    let mut game = HexagonIsland::new();
    let num_players = 4;
    let score_to_win = 15;
    let game_board_width = 9;
    let config = Config { num_players, score_to_win, game_board_width };
    game.configure_game(config).unwrap();
    assert_eq!(game.config.num_players, 4);
    assert_eq!(game.config.score_to_win, 15);
    assert_eq!(game.config.game_board_width, 9);
    game.next_phase();
    let attempt =
        game.configure_game(Config { num_players: 2, score_to_win: 7, game_board_width: 7 });
    assert_eq!(attempt, Err(GameError::ConfigureOutsideBoot));
    assert_eq!(
        attempt.unwrap_err().message(),
        "Cannot configure game outside of boot phase!"
    );
    assert_eq!(game.config.num_players, 4);
}

#[test]
fn should_reset() {
    let mut game = HexagonIsland::new();
    let config = Config { num_players: 2, score_to_win: 10, game_board_width: 5 };
    game.configure_game(config).unwrap();
    game.board.setup(5);

    game.reset();
    assert_eq!(game, expected_initial_state())
}

#[test]
fn can_roll_the_dice() {
    let mut game = HexagonIsland::new();
    game.add_player("key1", "name1", "socket_id1").unwrap();
    game.add_player("key2", "name2", "socket_id2").unwrap();
    game.phase = Phase::Play;
    game.last_action = Actions::EndTurn;
    assert_eq!(game.roll_result, (0, 0));
    let command = Command {
        action: Actions::RollDice,
        player: String::from("key1"),
        target: [None; 5],
        trade: None,
    };
    game.process_action(command).unwrap();
    assert!(game.roll_result != (0, 0));
    assert!((1..=6).contains(&game.roll_result.0));
    assert!((1..=6).contains(&game.roll_result.1));
}

#[test]
fn player_color() {
    let mut game = HexagonIsland::new();
    let config = Config { num_players: 2, score_to_win: 10, game_board_width: 5 };
    game.configure_game(config).unwrap();

    game.add_player("key1", "name1", "socket_id1").unwrap();
    game.add_player("key2", "name2", "socket_id2").unwrap();

    assert_eq!(game.players.cardinality, 2);
    assert_eq!(game.player_colors, vec![String::from("#DC143C"), String::from("#4169E1")]);
    let status = game.get_game_status("key1");
    assert_eq!(
        status.colors,
        vec![
            (String::from("key1"), String::from("#DC143C")),
            (String::from("key2"), String::from("#4169E1"))
        ]
    );
}

#[test]
fn too_many_players() {
    let mut game = HexagonIsland::new();

    game.add_player("key1", "name1", "socket_id1").unwrap();
    game.add_player("key2", "name2", "socket_id2").unwrap();
    let attempt = game.add_player("key3", "name3", "socket_id3");
    assert_eq!(attempt, Err(GameError::TooManyPlayers));
    assert_eq!(
        attempt.unwrap_err().message(),
        "Cannot add player; exceeds maximum number of players."
    );
    assert_eq!(game.players.list.len(), 2);
}

fn active_key(game: &HexagonIsland) -> String {
    game.players.active_player.as_ref().unwrap().key.clone()
}

fn game_setup() -> HexagonIsland {
    let mut game = HexagonIsland::new();
    let config = Config { num_players: 2, score_to_win: 4, game_board_width: 5 };
    game.configure_game(config).unwrap();

    assert_eq!(game.phase, Phase::Boot);

    game.add_player("key1", "name1", "socket_id1").unwrap();
    game.add_player("key2", "name2", "socket_id2").unwrap();

    assert_eq!(game.phase, Phase::Setup);

    assert_eq!(active_key(&game), String::from("key1"));

    let mut command = Command::new(Actions::PlaceVillageAndRoad, String::from("key1"));
    command.target[0] = Some((Target::Node, 0));
    let attempt = game.process_action(command);
    assert_eq!(attempt, Err(GameError::SetupSelection));
    assert_eq!(
        attempt.unwrap_err().message(),
        "Must select one node and one road during setup."
    );

    assert_eq!(active_key(&game), String::from("key1"));

    let mut command = Command::new(Actions::PlaceVillageAndRoad, String::from("key1"));
    command.target[0] = Some((Target::Node, 10));
    command.target[1] = Some((Target::Road, 26));
    game.process_action(command).unwrap();

    let command = Command::new(Actions::EndTurn, String::from("key1"));
    game.process_action(command).unwrap();

    assert_eq!(active_key(&game), String::from("key2"));

    let mut command = Command::new(Actions::PlaceVillageAndRoad, String::from("key2"));
    command.target[0] = Some((Target::Node, 15));
    command.target[1] = Some((Target::Road, 21));
    game.process_action(command).unwrap();

    let command = Command::new(Actions::EndTurn, String::from("key2"));
    game.process_action(command).unwrap();

    assert_eq!(active_key(&game), String::from("key2"));

    let mut command = Command::new(Actions::PlaceVillageAndRoad, String::from("key2"));
    command.target[0] = Some((Target::Node, 42));
    command.target[1] = Some((Target::Road, 55));
    game.process_action(command).unwrap();

    let command = Command::new(Actions::EndTurn, String::from("key2"));
    game.process_action(command).unwrap();

    assert_eq!(active_key(&game), String::from("key1"));

    let mut command = Command::new(Actions::PlaceVillageAndRoad, String::from("key1"));
    command.target[0] = Some((Target::Node, 20));
    command.target[1] = Some((Target::Road, 25));
    game.process_action(command).unwrap();

    assert_eq!(game.phase, Phase::Setup);

    let command = Command::new(Actions::EndTurn, String::from("key1"));
    game.process_action(command).unwrap();

    assert_eq!(game.phase, Phase::Play);

    assert_eq!(active_key(&game), String::from("key1"));

    let num_player_one_resources = game.player_resources[0].count();
    let num_player_two_resources = game.player_resources[1].count();

    assert!(num_player_one_resources >= 3);
    assert!(num_player_two_resources >= 3);

    game
}

fn pay_for_round(game: &mut HexagonIsland, seat: usize) {
    game.player_resources[seat]
        .deposit([
            Resource::Block,
            Resource::Timber,
            Resource::Block,
            Resource::Timber,
            Resource::Block,
            Resource::Timber,
            Resource::Fiber,
            Resource::Cereal,
        ])
        .unwrap();
}

fn play_round_one(mut game: HexagonIsland) -> HexagonIsland {
    pay_for_round(&mut game, 0);
    pay_for_round(&mut game, 1);

    let command = Command::new(Actions::RollDice, String::from("key1"));
    game.process_action(command).unwrap();
    game.roll_result = (1, 1); // In case we roll a 7

    let mut command = Command::new(Actions::BuildStuff, String::from("key1"));
    command.target[0] = Some((Target::Road, 27));
    command.target[1] = Some((Target::Road, 44));
    game.process_action(command).unwrap();

    let mut command = Command::new(Actions::BuildStuff, String::from("key1"));
    command.target[0] = Some((Target::Node, 34));
    game.process_action(command).unwrap();

    let command = Command::new(Actions::EndTurn, String::from("key1"));
    game.process_action(command).unwrap();

    let command = Command::new(Actions::RollDice, String::from("key2"));
    game.process_action(command).unwrap();
    game.roll_result = (1, 1); // In case we roll a 7

    let mut command = Command::new(Actions::BuildStuff, String::from("key2"));
    command.target[0] = Some((Target::Road, 38));
    command.target[1] = Some((Target::Road, 39));
    game.process_action(command).unwrap();

    let mut command = Command::new(Actions::BuildStuff, String::from("key2"));
    command.target[0] = Some((Target::Node, 30));
    game.process_action(command).unwrap();

    let command = Command::new(Actions::EndTurn, String::from("key2"));
    game.process_action(command).unwrap();

    game
}

#[test]
fn game_progression() {
    let mut game = game_setup();
    game = play_round_one(game);

    assert_eq!(active_key(&game), String::from("key1"));

    assert_eq!(game.round, 2);
}

#[test]
fn action_errors() {
    let mut game = game_setup();

    let command = Command::new(Actions::EndTurn, String::from("key1"));
    let attempt = game.process_action(command);
    assert_eq!(attempt, Err(GameError::ActionNotAllowed));
    assert_eq!(attempt.unwrap_err().message(), "That is not an allowed action right now.");
}

#[test]
fn should_find_the_winner() {
    let mut game = game_setup();
    game = play_round_one(game);

    assert_eq!(game.the_winner, None);

    pay_for_round(&mut game, 0);

    let command = Command::new(Actions::RollDice, String::from("key1"));
    game.process_action(command).unwrap();
    game.roll_result = (1, 1); // In case we roll a 7

    let mut command = Command::new(Actions::BuildStuff, String::from("key1"));
    command.target[0] = Some((Target::Road, 43));
    command.target[1] = Some((Target::Road, 58));
    game.process_action(command).unwrap();

    let mut command = Command::new(Actions::BuildStuff, String::from("key1"));
    command.target[0] = Some((Target::Node, 44));
    game.process_action(command).unwrap();

    let command = Command::new(Actions::EndTurn, String::from("key1"));
    game.process_action(command).unwrap();

    assert_eq!(game.the_winner.unwrap(), String::from("key1"));
    assert_eq!(game.phase, Phase::End);
    assert_eq!(game.players.active_player.as_ref().unwrap().key, String::from("key1"));
}

#[test]
fn move_scorpion_when_seven_is_rolled() {
    let mut game = game_setup();

    let desert_index =
        game.board.hexagons.iter().position(|hex| hex.resource == Resource::Desert).unwrap();

    assert_eq!(game.board.scorpion_index.unwrap(), desert_index);

    let command = Command::new(Actions::RollDice, String::from("key1"));
    game.process_action(command).unwrap();
    game.roll_result = (3, 4); // Intentionally roll a seven

    let mut command = Command::new(Actions::MoveScorpion, String::from("key1"));
    command.target[0] = Some((Target::Hex, 0));
    game.process_action(command).unwrap();

    assert_eq!(game.board.scorpion_index.unwrap(), 0);
}

/// A two-player game in setup on a board whose pools were laid out without shuffling.
fn fixed_game(score_to_win: u8) -> HexagonIsland {
    let mut game = HexagonIsland::new();
    game.configure_game(Config { num_players: 2, score_to_win, game_board_width: 5 }).unwrap();
    game.add_player("key1", "name1", "socket_id1").unwrap();
    game.add_player("key2", "name2", "socket_id2").unwrap();
    let mut board = GameBoard::new();
    board.compute_hex_grid_centroids(100, 5);
    board.place_pools(resource_pool_for(19), number_pool_for(19));
    board.compute_nodes_and_roads(100);
    game.board = board;
    game
}

fn command(action: Actions, key: &str, targets: &[(Target, usize)]) -> Command {
    let mut command = Command::new(action, String::from(key));
    for (place, target) in targets.iter().enumerate() {
        command.target[place] = Some(*target);
    }
    command
}

fn place(game: &mut HexagonIsland, key: &str, node: usize, road: usize) {
    let placing =
        command(Actions::PlaceVillageAndRoad, key, &[(Target::Node, node), (Target::Road, road)]);
    assert_eq!(game.process_action_with_roll(placing, (1, 1)), Ok(()));
    assert_eq!(game.process_action_with_roll(command(Actions::EndTurn, key, &[]), (1, 1)), Ok(()));
}

fn fixed_game_in_play(score_to_win: u8) -> HexagonIsland {
    let mut game = fixed_game(score_to_win);
    place(&mut game, "key1", 10, 26);
    place(&mut game, "key2", 15, 21);
    place(&mut game, "key2", 42, 55);
    place(&mut game, "key1", 20, 25);
    assert_eq!(game.phase, Phase::Play);
    game
}

#[test]
fn setup_goes_forward_then_backward() {
    let mut game = fixed_game(10);
    let mut order = Vec::new();
    for (node, road) in [(10, 26), (15, 21), (42, 55), (20, 25)] {
        let key = active_key(&game);
        assert_eq!(game.phase, Phase::Setup);
        order.push(key.clone());
        place(&mut game, &key, node, road);
    }
    assert_eq!(order, vec!["key1", "key2", "key2", "key1"]);
    assert_eq!(game.phase, Phase::Play);
    assert_eq!(game.round, 1);
    assert_eq!(active_key(&game), "key1");
    assert_eq!(game.last_action, Actions::EndTurn);
}

#[test]
fn setup_pays_for_every_hexagon_at_a_village() {
    let game = fixed_game_in_play(10);
    // Node 10 lies on hexagons 2, 5 and 6; node 20 on hexagons 5, 9 and 10.
    assert_eq!(game.board.find_neighboring_hexagons(10), vec![2, 5, 6]);
    assert_eq!(game.board.find_neighboring_hexagons(20), vec![5, 9, 10]);
    let kinds: Vec<Resource> =
        [2usize, 5, 6, 9, 10].iter().map(|i| game.board.hexagons[*i].resource).collect();
    assert_eq!(
        kinds,
        vec![Resource::Block, Resource::Rock, Resource::Timber, Resource::Timber, Resource::Cereal]
    );
    assert_eq!(
        game.player_resources[0],
        ResourceList { block: 1, rock: 2, timber: 2, fiber: 0, cereal: 1 }
    );
    // Node 15 lies on hexagons 3, 4 and 8; node 42 on hexagons 13, 14 and 17.
    assert_eq!(
        game.player_resources[1],
        ResourceList { block: 0, rock: 2, timber: 1, fiber: 2, cereal: 1 }
    );
    assert_eq!(game.player_resources[0].count() + game.player_resources[1].count(), 12);
}

#[test]
fn commands_out_of_turn_or_phase_are_refused() {
    let mut game = HexagonIsland::new();
    assert_eq!(
        game.process_action_with_roll(command(Actions::EndTurn, "key1", &[]), (1, 1)),
        Err(GameError::NoActivePlayer)
    );
    game.add_player("key1", "name1", "socket_id1").unwrap();
    assert_eq!(
        game.process_action_with_roll(command(Actions::EndTurn, "key1", &[]), (1, 1)),
        Err(GameError::NotInSetupOrPlay)
    );
    assert_eq!(
        game.process_action_with_roll(command(Actions::EndTurn, "key2", &[]), (1, 1)),
        Err(GameError::NotYourTurn)
    );
    assert_eq!(GameError::NotYourTurn.message(), "It is not your turn.");
    let mut game = fixed_game(10);
    let before = game.get_game_status("key1");
    for action in [
        Actions::RollDice,
        Actions::MoveScorpion,
        Actions::BuildStuff,
        Actions::Trade,
        Actions::BuyBug,
        Actions::NoAction,
    ] {
        assert_eq!(
            game.process_action_with_roll(command(action, "key1", &[]), (1, 1)),
            Err(GameError::NotASetupAction)
        );
    }
    assert_eq!(
        GameError::NotASetupAction.message(),
        "That is not an allowed action during the Setup Phase."
    );
    assert_eq!(
        game.process_action_with_roll(command(Actions::EndTurn, "key1", &[]), (1, 1)),
        Err(GameError::ActionNotAllowed)
    );
    let after = game.get_game_status("key1");
    assert_eq!(before.board, after.board);
    assert_eq!(before.allowed_actions, vec![Actions::PlaceVillageAndRoad]);
    assert_eq!(game.get_game_status("key2").allowed_actions, vec![Actions::NoAction]);
}

#[test]
fn setup_placement_errors() {
    let mut game = fixed_game(10);
    let attempt = |game: &mut HexagonIsland, targets: &[(Target, usize)]| {
        game.process_action_with_roll(
            command(Actions::PlaceVillageAndRoad, "key1", targets),
            (1, 1),
        )
    };
    assert_eq!(attempt(&mut game, &[(Target::Node, 10)]), Err(GameError::SetupSelection));
    assert_eq!(
        attempt(&mut game, &[(Target::Node, 10), (Target::Node, 11), (Target::Road, 26)]),
        Err(GameError::SetupSelection)
    );
    assert_eq!(
        attempt(&mut game, &[(Target::Node, 10), (Target::Road, 7000)]),
        Err(GameError::InvalidRoadIndex)
    );
    assert_eq!(
        attempt(&mut game, &[(Target::Node, 10), (Target::Road, 0)]),
        Err(GameError::SetupNotAdjacent)
    );
    assert_eq!(
        GameError::SetupNotAdjacent.message(),
        "Selected node and road must be next to each other."
    );
    assert_eq!(attempt(&mut game, &[(Target::Node, 10), (Target::Road, 26)]), Ok(()));
    assert_eq!(
        attempt(&mut game, &[(Target::Node, 15), (Target::Road, 21)]),
        Err(GameError::ActionNotAllowed)
    );
}

fn after_roll(game: &mut HexagonIsland, key: &str, roll: (u8, u8)) {
    assert_eq!(game.process_action_with_roll(command(Actions::RollDice, key, &[]), roll), Ok(()));
    assert_eq!(game.roll_result, roll);
}

#[test]
fn a_roll_pays_the_owners_at_the_hexagons_rolled() {
    let mut game = fixed_game_in_play(10);
    let before = game.player_resources.clone();
    // Hexagons 5 and 6 carry the number 5. Hexagon 5 yields rock at nodes 10 and 20,
    // hexagon 6 yields timber at node 10; key1 owns both nodes.
    assert_eq!(game.board.hexagons[5].number, 5);
    assert_eq!(game.board.hexagons[6].number, 5);
    after_roll(&mut game, "key1", (2, 3));
    assert_eq!(
        game.player_resources[0],
        ResourceList {
            rock: before[0].rock + 2,
            timber: before[0].timber + 1,
            ..before[0]
        }
    );
    assert_eq!(game.player_resources[1], before[1]);
    assert_eq!(game.last_action, Actions::RollDice);
}

#[test]
fn production_for_a_stranger_is_refused() {
    let mut game = fixed_game_in_play(10);
    // Node 9 lies on hexagon 1, which carries the number 3 and yields block.
    assert_eq!(game.board.find_neighboring_hexagons(9), vec![1]);
    assert_eq!(game.board.hexagons[1].number, 3);
    game.board.nodes[9].player_key = Some(String::from("stranger"));
    let before = game.player_resources.clone();
    assert_eq!(
        game.process_action_with_roll(command(Actions::RollDice, "key1", &[]), (2, 1)),
        Err(GameError::NoPlayerResources)
    );
    assert_eq!(GameError::NoPlayerResources.message(), "Can't get player resources.");
    // Hexagon 1 paid nobody before it came to the stranger, and hexagon 2 was not reached.
    assert_eq!(game.player_resources, before);
    assert_eq!(game.roll_result, (2, 1));
    assert_eq!(game.last_action, Actions::EndTurn);
}

#[test]
fn a_player_without_a_seat_has_no_ledger() {
    let mut game = fixed_game_in_play(10);
    game.players.active_player.as_mut().unwrap().key = String::from("visitor");
    game.last_action = Actions::Trade;
    for action in [Actions::BuildStuff, Actions::Trade, Actions::BuyBug] {
        assert_eq!(
            game.process_action_with_roll(command(action, "visitor", &[]), (1, 1)),
            Err(GameError::NoPlayerResources)
        );
    }
    assert_eq!(
        game.process_action_with_roll(command(Actions::EndTurn, "visitor", &[]), (1, 1)),
        Err(GameError::ActivePlayerNotInRoster)
    );
}

#[test]
fn a_seven_pays_nothing_and_calls_for_the_scorpion() {
    let mut game = fixed_game_in_play(10);
    let before = game.player_resources.clone();
    after_roll(&mut game, "key1", (3, 4));
    assert_eq!(game.player_resources, before);
    assert_eq!(game.get_game_status("key1").allowed_actions, vec![Actions::MoveScorpion]);
    assert_eq!(
        game.process_action_with_roll(command(Actions::EndTurn, "key1", &[]), (1, 1)),
        Err(GameError::ActionNotAllowed)
    );
    assert_eq!(
        game.process_action_with_roll(command(Actions::MoveScorpion, "key1", &[]), (1, 1)),
        Err(GameError::ScorpionSelection)
    );
    assert_eq!(
        GameError::ScorpionSelection.message(),
        "Must select one hexagon when moving the scorpion."
    );
    assert_eq!(
        game.process_action_with_roll(
            command(Actions::MoveScorpion, "key1", &[(Target::Hex, 19)]),
            (1, 1)
        ),
        Err(GameError::InvalidHexagonIndex)
    );
    assert_eq!(
        GameError::InvalidHexagonIndex.message(),
        "Cannot move scorpion; invalid hexagon index."
    );
    assert_eq!(
        game.process_action_with_roll(
            command(Actions::MoveScorpion, "key1", &[(Target::Hex, 2)]),
            (1, 1)
        ),
        Ok(())
    );
    assert_eq!(game.board.scorpion_index, Some(2));
    assert_eq!(game.last_action, Actions::MoveScorpion);
}

#[test]
fn building_stops_at_the_first_failure() {
    let mut game = fixed_game_in_play(10);
    after_roll(&mut game, "key1", (6, 6));
    game.player_resources[0] = ResourceList { block: 2, rock: 0, timber: 2, fiber: 0, cereal: 0 };
    // Road 27 continues key1's road 26; road 0 is far from anything key1 owns.
    let attempt = game.process_action_with_roll(
        command(
            Actions::BuildStuff,
            "key1",
            &[(Target::Road, 27), (Target::Road, 0), (Target::Road, 44)],
        ),
        (1, 1),
    );
    assert_eq!(attempt, Err(GameError::RoadNotConnected));
    assert_eq!(game.board.roads[27].player_key, Some(String::from("key1")));
    assert_eq!(game.board.roads[0].player_key, None);
    assert_eq!(game.board.roads[44].player_key, None);
    assert_eq!(
        game.player_resources[0],
        ResourceList { block: 1, rock: 0, timber: 1, fiber: 0, cereal: 0 }
    );
    assert_eq!(game.last_action, Actions::RollDice);
    // One road can still be paid, the second cannot.
    let attempt = game.process_action_with_roll(
        command(Actions::BuildStuff, "key1", &[(Target::Road, 44), (Target::Road, 43)]),
        (1, 1),
    );
    assert_eq!(attempt, Err(GameError::InsufficientResources));
    assert_eq!(game.board.roads[44].player_key, Some(String::from("key1")));
    assert_eq!(game.player_resources[0], ResourceList::new());
}

#[test]
fn trade_through_a_command() {
    let mut game = fixed_game_in_play(10);
    after_roll(&mut game, "key1", (6, 6));
    game.player_resources[0] = ResourceList { block: 3, rock: 0, timber: 0, fiber: 0, cereal: 0 };
    assert_eq!(
        game.process_action_with_roll(command(Actions::Trade, "key1", &[]), (1, 1)),
        Err(GameError::NoTradeSpecified)
    );
    let mut trading = command(Actions::Trade, "key1", &[]);
    trading.trade = Some((Resource::Rock, Resource::Block));
    assert_eq!(
        game.process_action_with_roll(trading, (1, 1)),
        Err(GameError::InsufficientResources)
    );
    let mut trading = command(Actions::Trade, "key1", &[]);
    trading.trade = Some((Resource::Block, Resource::Fiber));
    assert_eq!(game.process_action_with_roll(trading, (1, 1)), Ok(()));
    assert_eq!(
        game.player_resources[0],
        ResourceList { block: 0, rock: 0, timber: 0, fiber: 1, cereal: 0 }
    );
    assert_eq!(game.last_action, Actions::Trade);
}

#[test]
fn buying_bugs() {
    let mut game = fixed_game_in_play(10);
    after_roll(&mut game, "key1", (6, 6));
    game.player_resources[0] = ResourceList { block: 0, rock: 3, timber: 0, fiber: 3, cereal: 3 };
    assert_eq!(game.process_action_with_roll(command(Actions::BuyBug, "key1", &[]), (1, 1)), Ok(()));
    assert_eq!(game.bugs, vec![1, 0]);
    assert_eq!(game.has_most_bugs, None);
    assert_eq!(
        game.player_resources[0],
        ResourceList { block: 0, rock: 2, timber: 0, fiber: 2, cereal: 2 }
    );
    // After a bug only the scorpion may be moved.
    assert_eq!(
        game.process_action_with_roll(command(Actions::BuyBug, "key1", &[]), (1, 1)),
        Err(GameError::ActionNotAllowed)
    );
    for held in [1u8, 2] {
        assert_eq!(game.bugs[0], held);
        assert_eq!(
            game.process_action_with_roll(
                command(Actions::MoveScorpion, "key1", &[(Target::Hex, 0)]),
                (1, 1)
            ),
            Ok(())
        );
        assert_eq!(
            game.process_action_with_roll(command(Actions::BuyBug, "key1", &[]), (1, 1)),
            Ok(())
        );
    }
    assert_eq!(game.bugs, vec![3, 0]);
    assert_eq!(game.has_most_bugs, Some(String::from("key1")));
    assert_eq!(game.get_game_status("key1").bugs, 3);
    assert_eq!(game.get_game_status("key2").bugs, 0);
    game.last_action = Actions::Trade;
    assert_eq!(
        game.process_action_with_roll(command(Actions::BuyBug, "key1", &[]), (1, 1)),
        Err(GameError::InsufficientResources)
    );
    game.player_resources[0] = ResourceList { block: 0, rock: 1, timber: 0, fiber: 1, cereal: 1 };
    game.bugs[0] = 255;
    assert_eq!(
        game.process_action_with_roll(command(Actions::BuyBug, "key1", &[]), (1, 1)),
        Err(GameError::BugLimit)
    );
    assert_eq!(game.bugs, vec![255, 0]);
}

#[test]
fn the_winner_ends_the_game_at_the_end_of_the_turn() {
    let mut game = fixed_game_in_play(3);
    after_roll(&mut game, "key1", (6, 6));
    game.player_resources[0] = ResourceList { block: 3, rock: 0, timber: 3, fiber: 1, cereal: 1 };
    assert_eq!(
        game.process_action_with_roll(
            command(Actions::BuildStuff, "key1", &[(Target::Road, 27), (Target::Road, 44)]),
            (1, 1)
        ),
        Ok(())
    );
    assert_eq!(game.the_winner, None);
    assert_eq!(
        game.process_action_with_roll(
            command(Actions::BuildStuff, "key1", &[(Target::Node, 34)]),
            (1, 1)
        ),
        Ok(())
    );
    assert_eq!(game.the_winner, Some(String::from("key1")));
    assert_eq!(game.phase, Phase::Play);
    assert_eq!(game.get_game_status("key2").the_winner, Some(String::from("key1")));
    assert_eq!(
        game.process_action_with_roll(command(Actions::EndTurn, "key1", &[]), (1, 1)),
        Ok(())
    );
    assert_eq!(game.phase, Phase::End);
    assert_eq!(active_key(&game), "key1");
    assert_eq!(game.round, 1);
    assert_eq!(
        game.process_action_with_roll(command(Actions::RollDice, "key1", &[]), (1, 1)),
        Err(GameError::NotInSetupOrPlay)
    );
}

#[test]
fn the_round_counter_cannot_pass_its_limit() {
    let mut game = fixed_game_in_play(10);
    game.set_active_player("key2").unwrap();
    game.last_action = Actions::Trade;
    game.round = 65535;
    assert_eq!(
        game.process_action_with_roll(command(Actions::EndTurn, "key2", &[]), (1, 1)),
        Err(GameError::RoundLimit)
    );
    assert_eq!(active_key(&game), "key2");
    assert_eq!(game.round, 65535);
    game.round = 65534;
    assert_eq!(
        game.process_action_with_roll(command(Actions::EndTurn, "key2", &[]), (1, 1)),
        Ok(())
    );
    assert_eq!(active_key(&game), "key1");
    assert_eq!(game.round, 65535);
}

#[test]
fn status_for_a_player() {
    let game = fixed_game_in_play(10);
    let status = game.get_game_status("key2");
    assert_eq!(status.key, "key2");
    assert_eq!(status.phase, Phase::Play);
    assert_eq!(status.round, 1);
    assert_eq!(status.active_player, game.players.active_player);
    assert_eq!(status.roll_result, (0, 0));
    assert_eq!(status.allowed_actions, vec![Actions::NoAction]);
    assert_eq!(status.the_winner, None);
    assert_eq!(status.resources, game.player_resources[1]);
    assert_eq!(status.bugs, 0);
    assert_eq!(status.has_most_bugs, None);
    assert_eq!(status.board, game.board);
    assert_eq!(game.get_game_status("key1").allowed_actions, vec![Actions::RollDice]);
    let stranger = game.get_game_status("nobody");
    assert_eq!(stranger.resources, ResourceList::new());
    assert_eq!(stranger.allowed_actions, vec![Actions::NoAction]);
}
