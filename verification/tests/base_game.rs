use hexagon_island::error::GameError;
use hexagon_island::games::base::players::{Player, Players};
use hexagon_island::games::base::traits::Game;
use hexagon_island::games::base::{Actions, Core, CoreCommand, CoreConfigType, Phase};
use std::collections::HashMap;

#[test]
fn keep_track_of_phase() {
    let mut game = Core::new();
    assert_eq!(game.phase, Phase::Boot);
    game.next_phase();
    assert_eq!(game.phase, Phase::Setup);
    game.next_phase();
    assert_eq!(game.phase, Phase::Play);
    game.next_phase();
    assert_eq!(game.phase, Phase::End);
    game.next_phase();
    assert_eq!(game.phase, Phase::End);
}

#[test]
fn keep_track_of_round() {
    let mut game = Core::new();
    assert_eq!(game.round, 0);
    game.next_round();
    assert_eq!(game.round, 1);
    game.next_round();
    assert_eq!(game.round, 2);
}

#[test]
fn reset_the_game() {
    let mut game = Core::new();
    game.next_phase();
    game.next_phase();
    game.next_round();
    game.add_player("key", "name", "socket_id").unwrap();
    assert_eq!(game.phase, Phase::Play);
    assert_eq!(game.round, 1);
    assert_eq!(game.players.list.len(), 1);
    game.reset();
    assert_eq!(game.phase, Phase::Boot);
    assert_eq!(game.round, 0);
    assert_eq!(game.players.list.len(), 0);
}

#[test]
fn add_players() {
    let mut game = Core::new();
    assert_eq!(game.players.list.len(), 0);
    game.add_player("key", "name", "socket_id").unwrap();
    assert_eq!(game.players.list.len(), 1);
    assert_eq!(game.players.list[0].key.as_str(), "key");
    assert_eq!(game.players.list[0].name.as_str(), "name");
    assert_eq!(game.players.list[0].socket_id.as_str(), "socket_id");
}

#[test]
fn active_player() {
    let mut game = Core::new();
    assert_eq!(game.players.list.len(), 0);
    assert_eq!(game.players.active_player, None);
    game.add_player("key1", "name1", "socket_id1").unwrap();
    game.add_player("key2", "name2", "socket_id2").unwrap();
    assert_eq!(game.players.list.len(), 2);
    assert_eq!(game.players.active_player.as_ref().unwrap().key, String::from("key1"));
    game.set_active_player("key2").unwrap();
    assert_eq!(game.players.active_player.as_ref().unwrap().key, String::from("key2"));
    let attempt = game.set_active_player("not_a_valid_key");
    assert_eq!(attempt, Err(GameError::PlayerKeyNotFound));
    assert_eq!(attempt.unwrap_err().message(), "Player key not found!");
    game.reset();
    assert_eq!(game.players.active_player, None);
}

#[test]
fn next_player() {
    let mut game = Core::new();
    game.add_player("key1", "name1", "socket_id1").unwrap();
    game.add_player("key2", "name2", "socket_id2").unwrap();
    game.add_player("key3", "name3", "socket_id3").unwrap();
    game.add_player("key4", "name4", "socket_id4").unwrap();
    assert_eq!(game.players.cardinality, 4);
    assert_eq!(game.players.active_player.as_ref().unwrap().key, String::from("key1"));
    game.next_player().unwrap();
    assert_eq!(game.players.active_player.as_ref().unwrap().key, String::from("key2"));
    game.next_player().unwrap();
    assert_eq!(game.players.active_player.as_ref().unwrap().key, String::from("key3"));
    game.next_player().unwrap();
    assert_eq!(game.players.active_player.as_ref().unwrap().key, String::from("key4"));
    game.next_player().unwrap();
    assert_eq!(game.players.active_player.as_ref().unwrap().key, String::from("key1"));
}

fn player(key: &str, name: &str, socket_id: &str) -> Player {
    Player { key: String::from(key), name: String::from(name), socket_id: String::from(socket_id) }
}

#[test]
fn game_status() {
    let mut game = Core::new();
    game.next_phase();
    game.next_phase();
    game.next_round();
    game.add_player("key1", "name1", "socket_id1").unwrap();
    game.add_player("key2", "name2", "socket_id2").unwrap();
    game.add_player("key3", "name3", "socket_id3").unwrap();
    game.add_player("key4", "name4", "socket_id4").unwrap();
    let game_status = game.get_game_status("key1");
    let player_list = vec![
        player("key1", "name1", "socket_id1"),
        player("key2", "name2", "socket_id2"),
        player("key3", "name3", "socket_id3"),
        player("key4", "name4", "socket_id4"),
    ];
    assert_eq!(
        game_status,
        Core {
            phase: Phase::Play,
            round: 1,
            players: Players {
                list: player_list.clone(),
                active_player: Some(player_list[0].clone()),
                cardinality: 4,
            },
            last_action: Actions::NoAction,
            config: HashMap::new()
        }
    )
}

#[test]
fn process_actions() {
    let mut game = Core::new();
    let command = CoreCommand { action: Actions::NoAction };
    let attempt = game.process_action(command);
    assert_eq!(attempt, Err(GameError::NotInSetupOrPlay));
    assert_eq!(
        attempt.unwrap_err().message(),
        "Can only take action during the Setup or Play phases!"
    );
    game.next_phase();
    game.next_phase();
    let command = CoreCommand { action: Actions::NoAction };
    let attempt = game.process_action(command);
    let expected_result = Core {
        phase: Phase::Play,
        round: 0,
        players: Players { list: [].to_vec(), active_player: None, cardinality: 0 },
        last_action: Actions::NoAction,
        config: HashMap::new(),
    };
    assert_eq!(attempt, Ok(()));
    assert_eq!(game, expected_result);
}

#[test]
fn game_configuration() {
    // Can set config during boot
    let mut game = Core::new();
    let mut config = HashMap::new();
    config.insert(String::from("config_num_players"), CoreConfigType::Int(2));
    let config_copy = config.clone();
    let attempt = game.configure_game(config);
    let expected_result = Core {
        phase: Phase::Boot,
        round: 0,
        players: Players { list: [].to_vec(), active_player: None, cardinality: 0 },
        last_action: Actions::NoAction,
        config: config_copy,
    };
    assert_eq!(attempt, Ok(()));
    assert_eq!(game, expected_result);

    // Cannot set config outside of boot
    let mut game = Core::new();
    let mut config = HashMap::new();
    config.insert(String::from("config_num_players"), CoreConfigType::Int(2));
    game.next_phase();
    let attempt = game.configure_game(config);
    assert_eq!(attempt, Err(GameError::ConfigureOutsideBoot));
    assert_eq!(
        attempt.unwrap_err().message(),
        "Cannot configure game outside of boot phase!"
    );
}

#[test]
fn previous_player_wraps_to_the_last_seat() {
    let mut game = Core::new();
    game.add_player("key1", "name1", "socket_id1").unwrap();
    game.add_player("key2", "name2", "socket_id2").unwrap();
    game.add_player("key3", "name3", "socket_id3").unwrap();
    game.previous_player().unwrap();
    assert_eq!(game.players.active_player.as_ref().unwrap().key, String::from("key3"));
    game.previous_player().unwrap();
    assert_eq!(game.players.active_player.as_ref().unwrap().key, String::from("key2"));
}

#[test]
fn seat_after_formula() {
    assert_eq!(Players::seat_after(0, -1, 3), 2);
    assert_eq!(Players::seat_after(2, 1, 3), 0);
    assert_eq!(Players::seat_after(1, 127, 5), 3);
    assert_eq!(Players::seat_after(1, -128, 5), 3);
    assert_eq!(Players::seat_after(0, 0, 1), 0);
    assert_eq!(Players::seat_after(0, -4, 4), 0);
}

#[test]
fn rotation_without_players_is_refused() {
    let mut players = Players::new();
    assert_eq!(players.next_player(1), Err(GameError::NoActivePlayer));
    assert_eq!(GameError::NoActivePlayer.message(), "There is no active player.");
    players.active_player = Some(player("ghost", "nobody", "none"));
    assert_eq!(players.next_player(1), Err(GameError::ActivePlayerNotInRoster));
    assert_eq!(
        GameError::ActivePlayerNotInRoster.message(),
        "Cannot get index of active player!"
    );
}

#[test]
fn phase_names() {
    assert_eq!(Phase::Boot.name(), "Boot");
    assert_eq!(Phase::Setup.name(), "Setup");
    assert_eq!(Phase::Play.name(), "Play");
    assert_eq!(Phase::End.name(), "End");
}
