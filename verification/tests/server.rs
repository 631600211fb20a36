use word_lobby::guess::CharColor;
use word_lobby::player::PlayerState;
use word_lobby::server::Server;
use word_lobby::server::SubmitError;

#[test]
fn server_test_server_guess() {
    let mut server = Server::default();
    let uuid = uuid::Uuid::new_v4();
    let id = uuid.as_u128();
    // Add player to server connection with id UUID
    server.init_player(id);
    // Inits lobby; the secret word comes from the caller
    server.create_lobby("test".to_string(), "crane".to_string());
    // Gets a reference to the player state and attaches it to the lobby
    server.get_player_mut(id).lobby = Some("test".to_string());
    // Submits a move for the player by id and string guess
    let outcome = server.player_submit_move(id, "zzzzz".to_string());
    assert_eq!(outcome, Ok(None));
    let recorded = &server.get_player(id).word_guesses;
    assert_eq!(recorded.len(), 1);
    assert_eq!(recorded[0].char_states, vec![CharColor::Gray; 5]);
}

#[test]
fn test_test_server_guess() {
    let mut server = Server::default();
    let uuid = uuid::Uuid::new_v4();
    let id = uuid.as_u128();
    server.init_player(id);
    server.create_lobby("test".to_string(), "testa".to_string());
    assert!(server.join_lobby(id, &"test".to_string()));
    let outcome = server.player_submit_move(id, "testb".to_string());
    assert_eq!(outcome, Ok(None));
    let recorded = &server.get_player(id).word_guesses;
    assert_eq!(recorded.len(), 1);
    assert_eq!(
        recorded[0].char_states,
        vec![
            CharColor::Green,
            CharColor::Green,
            CharColor::Green,
            CharColor::Green,
            CharColor::Gray,
        ]
    );
}

#[test]
fn init_then_valid_and_unknown_invalid() {
    let mut server = Server::new();
    server.init_player(7);
    assert!(server.is_player_valid(7));
    assert!(!server.is_player_valid(8));
}

#[test]
fn join_nonexistent_lobby_changes_nothing() {
    let mut server = Server::new();
    server.init_player(1);
    assert!(!server.join_lobby(1, &"nope".to_string()));
    assert!(server.get_player(1).lobby.is_none());
    assert!(!server.has_lobby(1));
}

#[test]
fn join_with_unknown_player_fails() {
    let mut server = Server::new();
    server.create_lobby("L1".to_string(), "crane".to_string());
    assert!(!server.join_lobby(42, &"L1".to_string()));
    assert!(server.does_lobby_exist(&"L1".to_string()));
}

#[test]
fn end_to_end_winning_game() {
    let mut server = Server::new();
    server.create_lobby("L1".to_string(), "crane".to_string());
    server.init_player(11);
    assert!(server.join_lobby(11, &"L1".to_string()));
    assert!(server.has_lobby(11));
    let outcome = server.player_submit_move(11, "crane".to_string());
    // The winner's display name is reported; a fresh session's name is empty.
    assert_eq!(outcome, Ok(Some(String::new())));
    assert!(!server.does_lobby_exist(&"L1".to_string()));
    assert!(server.get_player(11).lobby.is_none());
    assert!(!server.has_lobby(11));
}

#[test]
fn cumulative_history_blocks_later_win() {
    // The win detector ranges over the whole history: after one wrong guess,
    // even an exact later guess does not win (full-history interpretation).
    let mut server = Server::new();
    server.create_lobby("L1".to_string(), "crane".to_string());
    server.init_player(2);
    assert!(server.join_lobby(2, &"L1".to_string()));
    let first = server.player_submit_move(2, "cranz".to_string());
    assert_eq!(first, Ok(None));
    let second = server.player_submit_move(2, "crane".to_string());
    assert_eq!(second, Ok(None));
    assert!(server.does_lobby_exist(&"L1".to_string()));
    assert_eq!(server.get_player(2).word_guesses.len(), 2);
    assert!(!server.get_player(2).has_won());
}

#[test]
fn empty_history_has_not_won() {
    let mut server = Server::new();
    server.init_player(3);
    assert!(!server.get_player(3).has_won());
}

#[test]
fn member_with_empty_history_does_not_block_winner() {
    // Member-list order breaks ties, but a member with no guesses has not
    // won, so a later member with a perfect history still wins.
    let mut server = Server::new();
    server.create_lobby("L1".to_string(), "crane".to_string());
    server.init_player(1);
    server.init_player(2);
    assert!(server.join_lobby(1, &"L1".to_string()));
    assert!(server.join_lobby(2, &"L1".to_string()));
    let outcome = server.player_submit_move(2, "crane".to_string());
    assert_eq!(outcome, Ok(Some(String::new())));
    assert!(!server.does_lobby_exist(&"L1".to_string()));
    assert!(server.get_player(1).lobby.is_none());
    assert!(server.get_player(2).lobby.is_none());
}

#[test]
fn submit_without_lobby_is_rejected() {
    let mut server = Server::new();
    server.init_player(5);
    let outcome = server.player_submit_move(5, "crane".to_string());
    assert_eq!(outcome, Err(SubmitError::NotInLobby));
    assert!(server.get_player(5).word_guesses.is_empty());
}

#[test]
fn submit_with_unknown_handle_is_rejected() {
    let mut server = Server::new();
    let outcome = server.player_submit_move(99, "crane".to_string());
    assert_eq!(outcome, Err(SubmitError::NotInLobby));
}

#[test]
fn submit_wrong_length_is_rejected() {
    let mut server = Server::new();
    server.create_lobby("L1".to_string(), "crane".to_string());
    server.init_player(6);
    assert!(server.join_lobby(6, &"L1".to_string()));
    let outcome = server.player_submit_move(6, "abc".to_string());
    assert_eq!(outcome, Err(SubmitError::LengthMismatch));
    assert!(server.get_player(6).word_guesses.is_empty());
    assert!(server.does_lobby_exist(&"L1".to_string()));
}

#[test]
fn create_lobby_overwrites_silently() {
    let mut server = Server::new();
    server.create_lobby("L".to_string(), "aaaaa".to_string());
    server.create_lobby("L".to_string(), "bbbbb".to_string());
    server.init_player(4);
    assert!(server.join_lobby(4, &"L".to_string()));
    let outcome = server.player_submit_move(4, "aaaaa".to_string());
    assert_eq!(outcome, Ok(None));
    let recorded = &server.get_player(4).word_guesses;
    assert_eq!(recorded[0].char_states, vec![CharColor::Gray; 5]);
}

#[test]
fn any_winners_picks_first_member_in_list_order() {
    let mut server = Server::new();
    server.create_lobby("L1".to_string(), "ab".to_string());
    server.init_player(1);
    server.init_player(2);
    assert!(server.join_lobby(1, &"L1".to_string()));
    assert!(server.join_lobby(2, &"L1".to_string()));
    assert_eq!(server.any_winners(&"L1".to_string()), None);
    assert_eq!(server.player_submit_move(1, "ab".to_string()), Ok(Some(String::new())));
}

#[test]
fn fresh_player_state_is_empty() {
    let p = PlayerState::default();
    assert_eq!(p.name, String::new());
    assert!(!p.is_owner);
    assert!(p.lobby.is_none());
    assert!(p.word_guesses.is_empty());
    assert!(!p.has_won());
}
