//! Data handed to the display: how a finished game is announced, what a
//! released mouse button meant, the models to draw and a texture.
use vstd::prelude::*;

verus! {

/// The outcome of a finished game as the display shows it.
#[derive(Debug, Clone, Copy, PartialEq, Eq, Structural)]
pub enum GameOverGui {
    WhiteWon,
    BlackWon,
    Tie,
}

/// The headline for a finished game.
pub fn game_over_text(result: &GameOverGui) -> (s: &'static str)
    ensures
        s@ == match result {
            GameOverGui::WhiteWon => "White Won!"@,
            GameOverGui::BlackWon => "Black Won!"@,
            GameOverGui::Tie => "Its a tie!"@,
        },
{
    match result {
        GameOverGui::WhiteWon => "White Won!",
        GameOverGui::BlackWon => "Black Won!",
        GameOverGui::Tie => "Its a tie!",
    }
}

/// What a released mouse button meant.
#[derive(Debug, Clone, Copy, PartialEq, Eq, Structural)]
pub enum MouseUp {
    /// This was a select.
    Select,
    /// This was the end of a scroll.
    NoSelect,
}

/// The models the board is drawn with.
pub struct Models<T> {
    pub select_model: T,
    pub drop_shadow: T,
    pub token_black: T,
    pub token_white: T,
    pub snow: T,
    pub token_neutral: T,
    pub water: T,
    pub land: T,
}

/// A texture: its size and its pixels as bytes.
pub struct Img {
    pub width: u32,
    pub height: u32,
    pub data: Vec<u8>,
}

/// A texture of one opaque blue pixel.
pub fn single_tex() -> (i: Img)
    ensures
        i.width == 1,
        i.height == 1,
        i.data@ == seq![0u8, 0u8, 255u8, 255u8],
{
    Img { width: 1, height: 1, data: vec![0, 0, 255, 255] }
}

} // verus!
