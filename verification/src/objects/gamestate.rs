//! The flags that say how far the game has come.

use vstd::prelude::*;

verus! {

/// The state of the game.
///
/// - `world_alive`: the world that the player placed is still there
/// - `game_alive`: at least two bodies are left in the universe
/// - `game_started`: the player has placed a world and let it go
/// - `planet_placed`: the player has placed a world
/// - `restart_clicked`: the player has asked for a new game
#[derive(Debug, Copy, Clone, PartialEq, Eq, Structural)]
pub struct GameState {
    pub world_alive: bool,
    pub game_alive: bool,
    pub game_started: bool,
    pub planet_placed: bool,
    pub restart_clicked: bool,
}

impl GameState {
    /// The state before anything has happened: everything is alive, nothing
    /// has been placed, the game has not started.
    pub open spec fn initial() -> GameState {
        GameState {
            world_alive: true,
            game_alive: true,
            game_started: false,
            planet_placed: false,
            restart_clicked: false,
        }
    }

    /// Whether bodies move and collide: the game has started and is not over.
    pub open spec fn spec_running(&self) -> bool {
        self.game_started && self.game_alive
    }

    /// Whether the player may still arrange the universe: the game has not
    /// started.
    pub open spec fn spec_in_setup(&self) -> bool {
        !self.game_started
    }

    /// The state before anything has happened.
    pub fn new() -> (state: Self)
        ensures
            state == GameState::initial(),
    {
        GameState {
            world_alive: true,
            game_alive: true,
            game_started: false,
            planet_placed: false,
            restart_clicked: false,
        }
    }

    /// Puts the state back to what it was before anything had happened.
    pub fn reset(&mut self)
        ensures
            *final(self) == GameState::initial(),
    {
        self.world_alive = true;
        self.game_alive = true;
        self.game_started = false;
        self.planet_placed = false;
        self.restart_clicked = false;
    }

    /// Tells whether the player may still arrange the universe.
    #[verifier::when_used_as_spec(spec_in_setup)]
    pub fn in_setup(&self) -> (open: bool)
        ensures
            open == self.in_setup(),
    {
        !self.game_started
    }

    /// Tells whether bodies move and collide in this state.
    #[verifier::when_used_as_spec(spec_running)]
    pub fn running(&self) -> (runs: bool)
        ensures
            runs == self.running(),
    {
        self.game_started && self.game_alive
    }
}

} // verus!
