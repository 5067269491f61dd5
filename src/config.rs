use vstd::prelude::*;

verus! {

/// How text is laid out by the terminal front end.
#[derive(Debug, Clone, Copy, PartialEq, Eq)]
pub enum UiMode {
    Plain,
    Centered,
}

/// Presentation settings.
#[derive(Debug, Clone, Copy)]
pub struct GameConfig {
    pub typewriter_speed_ms: u64,
    pub enable_typewriter: bool,
    pub allow_text_commands: bool,
    pub auto_save: bool,
    pub ui_mode: UiMode,
}

impl Default for GameConfig {
    fn default() -> (r: GameConfig)
        ensures
            r.typewriter_speed_ms == 30,
            r.enable_typewriter,
            r.allow_text_commands,
            !r.auto_save,
            r.ui_mode == UiMode::Plain,
    {
        GameConfig {
            typewriter_speed_ms: 30,
            enable_typewriter: true,
            allow_text_commands: true,
            auto_save: false,
            ui_mode: UiMode::Plain,
        }
    }
}

} // verus!
