use splaunch::launch::{Game, GameStatus};

#[test]
fn a_second_game_is_refused_while_one_runs() {
    let mut game = Game::new();
    assert!(!game.is_running());
    assert!(game.begin().is_ok());
    assert!(game.is_running());
    assert_eq!(game.begin().unwrap_err(), "A game is already running.");
    assert!(game.is_running());
}

#[test]
fn the_session_is_freed_however_the_game_ends() {
    let mut game = Game::default();
    game.begin().unwrap();
    match game.exited(Some(0)) {
        GameStatus::Exited { code } => assert_eq!(code, Some(0)),
        _ => panic!("an exit is announced as one"),
    }
    assert!(!game.is_running());
    assert!(game.begin().is_ok());

    match game.failed("could not start the engine: missing".to_string()) {
        GameStatus::Failed { reason } => assert_eq!(reason, "could not start the engine: missing"),
        _ => panic!("a failure is announced as one"),
    }
    assert!(!game.is_running());
    assert!(game.begin().is_ok());
}

#[test]
fn a_blank_root_means_look_for_it() {
    let mut game = Game::new();
    assert_eq!(game.root(), None);
    game.point_at(Some("/opt/zero-k".to_string()));
    assert_eq!(game.root().as_deref(), Some("/opt/zero-k"));
    game.point_at(Some("   ".to_string()));
    assert_eq!(game.root(), None);
    game.point_at(Some("D:\\Games\\Zero-K".to_string()));
    game.begin().unwrap();
    game.point_at(None);
    assert_eq!(game.root(), None);
    assert!(game.is_running());
}
