//! The screens of the game and what their buttons do.

use vstd::prelude::*;
use crate::gate::GateType;

verus! {

/// The screen being shown.
#[derive(Debug, Clone, Copy, PartialEq, Eq, Hash, Structural)]
pub enum GameState {
    MainMenu,
    Editor,
    Credits,
    LevelSelect,
}

impl Default for GameState {
    /// The game opens on the main menu.
    fn default() -> (s: Self)
        ensures
            s == GameState::MainMenu,
    {
        GameState::MainMenu
    }
}

/// A button of the user interface.
#[derive(Debug, Clone, Copy, PartialEq, Eq, Structural)]
pub enum MenuButton {
    /// "Level Select" on the main menu.
    LevelSelect,
    /// "Credits" on the main menu.
    Credits,
    /// "Quit" on the main menu.
    Quit,
    /// "Level n" on the level select screen.
    Level(u32),
    /// "Back to Menu" in the editor and on the credits screen.
    BackToMenu,
    /// "To the Next Level" in the editor.
    NextLevel,
    /// A gate button of the editor's component window.
    Spawn(GateType),
}

/// What a button press asks for.
#[derive(Debug, Clone, Copy, PartialEq, Eq, Structural)]
pub enum UiAction {
    /// Show another screen from the next frame on.
    GoTo(GameState),
    /// Leave the game.
    Quit,
    /// Clear the board and start the next level's circuit, `Circuit::next_level`.
    NextLevel,
    /// Place a new gate of this kind.
    SpawnGate(GateType),
}

/// Number of levels on the level select screen.
pub const LEVEL_COUNT: u32 = 5;

/// Whether `button` is shown on screen `state`.
pub open spec fn is_shown(state: GameState, button: MenuButton) -> bool {
    match state {
        GameState::MainMenu => button == MenuButton::LevelSelect || button == MenuButton::Credits
            || button == MenuButton::Quit,
        GameState::LevelSelect => button matches MenuButton::Level(n) && 1 <= n <= LEVEL_COUNT,
        GameState::Editor => button == MenuButton::BackToMenu || button == MenuButton::NextLevel
            || button is Spawn,
        GameState::Credits => button == MenuButton::BackToMenu,
    }
}

/// Each screen offers its buttons: the main menu its three, the level select
/// screen every level from 1 to 5, the editor going back, the next level and
/// every one of the seven gate kinds, and the credits going back.
pub proof fn law_every_screen_offers_its_buttons()
    ensures
        is_shown(GameState::MainMenu, MenuButton::LevelSelect),
        is_shown(GameState::MainMenu, MenuButton::Credits),
        is_shown(GameState::MainMenu, MenuButton::Quit),
        forall|n: u32| 1 <= n <= 5 ==> #[trigger] is_shown(GameState::LevelSelect, MenuButton::Level(n)),
        is_shown(GameState::Editor, MenuButton::BackToMenu),
        is_shown(GameState::Editor, MenuButton::NextLevel),
        forall|kind: GateType| #[trigger] is_shown(GameState::Editor, MenuButton::Spawn(kind)),
        is_shown(GameState::Credits, MenuButton::BackToMenu),
{
}

/// What pressing `button` on screen `state` does; `None` for a button that the screen does not show.
pub fn user_interface(state: GameState, button: MenuButton) -> (action: Option<UiAction>)
    ensures
        action is Some <==> is_shown(state, button),
        is_shown(state, button) ==> action == Some(match button {
            MenuButton::LevelSelect => UiAction::GoTo(GameState::LevelSelect),
            MenuButton::Credits => UiAction::GoTo(GameState::Credits),
            MenuButton::Quit => UiAction::Quit,
            MenuButton::Level(_) => UiAction::GoTo(GameState::Editor),
            MenuButton::BackToMenu => UiAction::GoTo(GameState::MainMenu),
            MenuButton::NextLevel => UiAction::NextLevel,
            MenuButton::Spawn(kind) => UiAction::SpawnGate(kind),
        }),
        state == GameState::Editor && button is Spawn ==> action == Some(UiAction::SpawnGate(button->Spawn_0)),
        state == GameState::LevelSelect && button is Level && 1 <= button->Level_0 <= 5
            ==> action == Some(UiAction::GoTo(GameState::Editor)),
{
    proof {
        law_every_screen_offers_its_buttons();
    }
    match state {
        GameState::MainMenu => match button {
            MenuButton::LevelSelect => Some(UiAction::GoTo(GameState::LevelSelect)),
            MenuButton::Credits => Some(UiAction::GoTo(GameState::Credits)),
            MenuButton::Quit => Some(UiAction::Quit),
            _ => None,
        },
        GameState::LevelSelect => match button {
            MenuButton::Level(n) => {
                if 1 <= n && n <= LEVEL_COUNT {
                    Some(UiAction::GoTo(GameState::Editor))
                } else {
                    None
                }
            },
            _ => None,
        },
        GameState::Editor => match button {
            MenuButton::BackToMenu => Some(UiAction::GoTo(GameState::MainMenu)),
            MenuButton::NextLevel => Some(UiAction::NextLevel),
            MenuButton::Spawn(kind) => Some(UiAction::SpawnGate(kind)),
            _ => None,
        },
        GameState::Credits => match button {
            MenuButton::BackToMenu => Some(UiAction::GoTo(GameState::MainMenu)),
            _ => None,
        },
    }
}

} // verus!
