//! Match-3 board logic: gem kinds, the board grid, run detection, swaps,
//! cascades with gravity and refill, and scoring.
//!
//! The game loop, rendering, input and audio playback live outside this
//! library; it exposes plain values and decisions for them to act on.

use vstd::prelude::*;

pub mod audio;
pub mod board;
pub mod game_logic;
pub mod gems;
pub mod laws;
pub mod runs;

verus! {

/// Top-level screens for the game.
#[derive(Debug, Clone, Copy, PartialEq, Eq, Hash, Default)]
pub enum ScreenState {
    /// Title screen shown before the game starts.
    #[default]
    MainMenu,
    /// The player is on the board or a gameplay overlay.
    InGame,
}

/// Gameplay substate that exists only while [`ScreenState::InGame`] is active.
#[derive(Debug, Clone, Copy, PartialEq, Eq, Hash, Default)]
pub enum GameState {
    /// The player can freely move the cursor and make swaps.
    #[default]
    Playing,
    /// The board is resolving matches.
    Animating,
    /// No valid moves remain; the game has ended.
    GameOver,
}

/// Broad system sets used to order the game's work within a frame.
#[derive(Debug, Clone, Copy, PartialEq, Eq, Hash)]
pub enum GameSystems {
    Input,
    Logic,
    AudioVisual,
}

} // verus!
