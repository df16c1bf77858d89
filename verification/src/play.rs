//! The per-player session record: which story a player is in the middle of,
//! and which chapter they have reached.

use vstd::prelude::*;

verus! {

/// A player's position inside one story, scoped to one guild.
pub struct GameState {
    pub player_id: String,
    pub guild_id: String,
    pub story_id: i64,
    pub current_chapter: String,
}

impl GameState {
    /// Bundle the four coordinates of a session into one record.
    pub fn new(player_id: String, guild_id: String, story_id: i64, current_chapter: String) -> (state: Self)
        ensures
            state.player_id == player_id,
            state.guild_id == guild_id,
            state.story_id == story_id,
            state.current_chapter == current_chapter,
    {
        GameState { player_id, guild_id, story_id, current_chapter }
    }
}

} // verus!
