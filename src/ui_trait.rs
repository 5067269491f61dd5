use vstd::prelude::*;
use crate::errors::GameResult;
use crate::world::Choice;

verus! {

/// What a front end offers the play loop, so that the same loop can drive
/// a terminal or a browser.
pub trait GameUI {
    /// Shows several texts one at a time; the player continues between them.
    fn display_texts(&mut self, texts: &[String]) -> GameResult<()>;

    /// Shows one text at once.
    fn display_text(&mut self, text: &str) -> GameResult<()>;

    /// Shows the available choices.
    fn display_choices(&mut self, choices: &[&Choice]);

    /// The index of the choice the player picks.
    fn get_user_choice(&mut self) -> GameResult<usize>;

    /// Removes the choices on display.
    fn clear_choices(&mut self);

    /// Marks a change of room.
    fn add_separator(&mut self);

    /// Releases the front end (terminal modes and the like).
    fn cleanup(&mut self) -> GameResult<()>;
}

/// A front end that can wait for the player to continue.
pub trait WaitForInput {
    fn wait_for_continue(&mut self) -> GameResult<()>;
}

} // verus!
