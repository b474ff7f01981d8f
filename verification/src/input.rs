use vstd::prelude::*;
use crate::settings::{PRESET_COUNT, preset, preset_spec};

verus! {

/// What a key press asks for.
#[derive(Clone, Copy, Debug, PartialEq, Eq, Structural)]
pub enum Action {
    MoveCursor(Direction),
    Reveal,
    ToggleFlag,
    Quit,
    Restart,
}

#[derive(Clone, Copy, Debug, PartialEq, Eq, Structural)]
pub enum Direction {
    Up,
    Down,
    Left,
    Right,
}

/// A key as the game sees it.
#[derive(Clone, Copy, Debug, PartialEq, Eq, Structural)]
pub enum Key {
    Up,
    Down,
    Left,
    Right,
    Enter,
    Esc,
    Char(char),
    Other,
}

/// The action bound to a key: arrows, WASD or hjkl move; space or enter
/// uncovers; `f` flags; `r` restarts; `q` or escape quits.
pub open spec fn key_action_spec(key: Key) -> Option<Action> {
    match key {
        Key::Up | Key::Char('w') | Key::Char('k') => Some(Action::MoveCursor(Direction::Up)),
        Key::Down | Key::Char('s') | Key::Char('j') => Some(Action::MoveCursor(Direction::Down)),
        Key::Left | Key::Char('a') | Key::Char('h') => Some(Action::MoveCursor(Direction::Left)),
        Key::Right | Key::Char('d') | Key::Char('l') => Some(Action::MoveCursor(Direction::Right)),
        Key::Enter | Key::Char(' ') => Some(Action::Reveal),
        Key::Char('f') => Some(Action::ToggleFlag),
        Key::Char('r') => Some(Action::Restart),
        Key::Char('q') | Key::Esc => Some(Action::Quit),
        _ => None,
    }
}

/// The action a pressed key asks for, if any.
pub fn key_action(key: Key) -> (a: Option<Action>)
    ensures
        a == key_action_spec(key),
        key == Key::Up || key == Key::Char('w') || key == Key::Char('k') ==> a == Some(
            Action::MoveCursor(Direction::Up),
        ),
        key == Key::Down || key == Key::Char('s') || key == Key::Char('j') ==> a == Some(
            Action::MoveCursor(Direction::Down),
        ),
        key == Key::Left || key == Key::Char('a') || key == Key::Char('h') ==> a == Some(
            Action::MoveCursor(Direction::Left),
        ),
        key == Key::Right || key == Key::Char('d') || key == Key::Char('l') ==> a == Some(
            Action::MoveCursor(Direction::Right),
        ),
        key == Key::Enter || key == Key::Char(' ') ==> a == Some(Action::Reveal),
        key == Key::Char('f') ==> a == Some(Action::ToggleFlag),
        key == Key::Char('r') ==> a == Some(Action::Restart),
        key == Key::Char('q') || key == Key::Esc ==> a == Some(Action::Quit),
        key == Key::Other ==> a is None,
{
    match key {
        Key::Up | Key::Char('w') | Key::Char('k') => Some(Action::MoveCursor(Direction::Up)),
        Key::Down | Key::Char('s') | Key::Char('j') => Some(Action::MoveCursor(Direction::Down)),
        Key::Left | Key::Char('a') | Key::Char('h') => Some(Action::MoveCursor(Direction::Left)),
        Key::Right | Key::Char('d') | Key::Char('l') => Some(Action::MoveCursor(Direction::Right)),
        Key::Enter | Key::Char(' ') => Some(Action::Reveal),
        Key::Char('f') => Some(Action::ToggleFlag),
        Key::Char('r') => Some(Action::Restart),
        Key::Char('q') | Key::Esc => Some(Action::Quit),
        _ => None,
    }
}

pub open spec fn delta_spec(dir: Direction) -> (i32, i32) {
    match dir {
        Direction::Up => (0i32, -1i32),
        Direction::Down => (0i32, 1i32),
        Direction::Left => (-1i32, 0i32),
        Direction::Right => (1i32, 0i32),
    }
}

/// The cursor step of a direction, as (dx, dy); rows grow downwards.
pub fn direction_delta(dir: Direction) -> (d: (i32, i32))
    ensures
        d == delta_spec(dir),
        dir == Direction::Left || dir == Direction::Right ==> d.1 == 0 && d.0 == if dir == Direction::Right {
            1i32
        } else {
            -1i32
        },
        dir == Direction::Up || dir == Direction::Down ==> d.0 == 0 && d.1 == if dir == Direction::Down {
            1i32
        } else {
            -1i32
        },
{
    match dir {
        Direction::Up => (0, -1),
        Direction::Down => (0, 1),
        Direction::Left => (-1, 0),
        Direction::Right => (1, 0),
    }
}

/// What the difficulty menu does with an action.
#[derive(Clone, Copy, Debug, PartialEq, Eq, Structural)]
pub enum MenuStep {
    /// Stay in the menu with this entry selected.
    Select(usize),
    /// Start a game with this (width, height, mines).
    Start(usize, usize, usize),
    Quit,
}

pub open spec fn menu_step_spec(selected: usize, action: Action) -> MenuStep {
    match action {
        Action::MoveCursor(Direction::Up) => MenuStep::Select(
            if selected == 0 {
                0
            } else {
                (selected - 1) as usize
            },
        ),
        Action::MoveCursor(Direction::Down) => MenuStep::Select(
            if selected < PRESET_COUNT - 1 {
                (selected + 1) as usize
            } else {
                selected
            },
        ),
        Action::Reveal => MenuStep::Start(preset_spec(selected).0, preset_spec(selected).1, preset_spec(selected).2),
        Action::Quit => MenuStep::Quit,
        _ => MenuStep::Select(selected),
    }
}

/// The difficulty menu: up and down move the selection (it stops at the
/// ends), uncovering starts the selected preset, quitting leaves.
pub fn menu_step(selected: usize, action: Action) -> (m: MenuStep)
    requires
        selected < PRESET_COUNT,
    ensures
        m == menu_step_spec(selected, action),
        m matches MenuStep::Select(s) ==> s < PRESET_COUNT,
        action == Action::MoveCursor(Direction::Down) ==> m == MenuStep::Select(
            if selected + 1 < PRESET_COUNT {
                (selected + 1) as usize
            } else {
                selected
            },
        ),
        action == Action::MoveCursor(Direction::Up) ==> m == MenuStep::Select(
            if selected > 0 {
                (selected - 1) as usize
            } else {
                selected
            },
        ),
        action == Action::Reveal ==> m == MenuStep::Start(
            preset_spec(selected).0,
            preset_spec(selected).1,
            preset_spec(selected).2,
        ),
        action == Action::Quit ==> m == MenuStep::Quit,
        action == Action::ToggleFlag || action == Action::Restart || action == Action::MoveCursor(Direction::Left)
            || action == Action::MoveCursor(Direction::Right) ==> m == MenuStep::Select(selected),
{
    match action {
        Action::MoveCursor(Direction::Up) => MenuStep::Select(selected.saturating_sub(1)),
        Action::MoveCursor(Direction::Down) => {
            if selected < PRESET_COUNT - 1 {
                MenuStep::Select(selected + 1)
            } else {
                MenuStep::Select(selected)
            }
        },
        Action::Reveal => {
            let (w, h, m) = preset(selected);
            MenuStep::Start(w, h, m)
        },
        Action::Quit => MenuStep::Quit,
        _ => MenuStep::Select(selected),
    }
}


/// Every preset can be reached in the menu: Down moves the selection to
/// the next entry until the last, Up to the previous one until the first.
pub proof fn lemma_menu_moves_one_entry(selected: usize)
    requires
        selected < PRESET_COUNT,
    ensures
        selected + 1 < PRESET_COUNT ==> menu_step_spec(selected, Action::MoveCursor(Direction::Down))
            == MenuStep::Select((selected + 1) as usize),
        selected > 0 ==> menu_step_spec(selected, Action::MoveCursor(Direction::Up)) == MenuStep::Select(
            (selected - 1) as usize,
        ),
{
}

} // verus!
