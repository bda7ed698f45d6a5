use sorcerers::effect::player_name;
use sorcerers::error::GameError;
use sorcerers::playground::Playground;
use sorcerers::state::Player;

#[test]
fn player_names_in_descriptions() {
    let a = uuid::Uuid::new_v4();
    let b = uuid::Uuid::new_v4();
    let c = uuid::Uuid::new_v4();
    let players = vec![
        Player { id: a, name: "  ".to_string() },
        Player { id: b, name: String::new() },
        Player { id: c, name: "Alice".to_string() },
    ];
    assert_eq!(player_name(&a, &players), "Player 1");
    assert_eq!(player_name(&b, &players), "Player 2");
    assert_eq!(player_name(&c, &players), "Alice");
    assert_eq!(player_name(&uuid::Uuid::new_v4(), &players), "Unknown Player");
}

#[test]
fn disconnection_message_names_the_player() {
    let id = uuid::Uuid::new_v4();
    assert_eq!(
        GameError::PlayerDisconnected(id).message(),
        format!("Player {:?} disconnected", id)
    );
}

#[test]
fn playground_is_created() {
    let _p = Playground::new();
}
