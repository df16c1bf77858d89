use storyteller::persistance::SaveStory;
use storyteller::play::GameState;

#[test]
fn game_state_keeps_its_coordinates() {
    let state = GameState::new(
        String::from("player-7"),
        String::from("guild-3"),
        42,
        String::from("The Cave"),
    );
    assert_eq!(state.player_id, "player-7");
    assert_eq!(state.guild_id, "guild-3");
    assert_eq!(state.story_id, 42);
    assert_eq!(state.current_chapter, "The Cave");
}

#[test]
fn save_story_outcomes_are_distinguishable() {
    let fresh = SaveStory::New;
    let replaced = SaveStory::Update;
    assert!(matches!(fresh, SaveStory::New));
    assert!(matches!(replaced, SaveStory::Update));
}
