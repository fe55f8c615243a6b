use vstd::prelude::*;

verus! {

/// A key press as the list, the editors and the menus read it.
#[derive(PartialEq, Eq, Structural, Clone, Copy, Debug)]
pub enum Key {
    Char(char),
    Enter,
    Esc,
    Backspace,
    Delete,
    Left,
    Right,
    Up,
    Down,
    Home,
    End,
    PageUp,
    PageDown,
    /// Any other key.
    Other,
}

/// What a key asks of the task list.
#[derive(PartialEq, Eq, Structural, Clone, Copy, Debug)]
pub enum Command {
    Quit,
    Language,
    Up,
    Down,
    Top,
    Bottom,
    PageUp,
    PageDown,
    NewTask,
    EditTask,
    ToggleDone,
    TogglePin,
    SetTag,
    DeleteTask,
    DeleteAll,
    Search,
    ClearFilters,
    /// Filter by the tag at this place of the tag list (0 for key `1`).
    FilterTag(usize),
    SetDueDate,
    /// A key bound to nothing.
    Noop,
}

/// The key bindings: each command with its English and Russian keys.
pub open spec fn command_of(key: Key) -> Command {
    match key {
        Key::Char(c) => {
            if c == 'q' || c == 'й' {
                Command::Quit
            } else if c == 'l' || c == 'L' || c == 'л' || c == 'Л' {
                Command::Language
            } else if c == 'k' || c == 'к' {
                Command::Up
            } else if c == 'j' || c == 'о' {
                Command::Down
            } else if c == 'g' || c == 'г' {
                Command::Top
            } else if c == 'G' || c == 'Г' {
                Command::Bottom
            } else if c == 'n' || c == 'т' {
                Command::NewTask
            } else if c == 'e' || c == 'у' {
                Command::EditTask
            } else if c == ' ' {
                Command::ToggleDone
            } else if c == 'p' || c == 'з' {
                Command::TogglePin
            } else if c == 't' || c == 'е' {
                Command::SetTag
            } else if c == 'd' || c == 'в' {
                Command::DeleteTask
            } else if c == 'D' || c == 'В' {
                Command::DeleteAll
            } else if c == '/' || c == '.' {
                Command::Search
            } else if c == 'M' || c == 'm' || c == 'ь' || c == 'Ь' {
                Command::SetDueDate
            } else if '1' <= c && c <= '9' {
                Command::FilterTag((c as u32 - '1' as u32) as usize)
            } else {
                Command::Noop
            }
        },
        Key::Up => Command::Up,
        Key::Down => Command::Down,
        Key::Home => Command::Top,
        Key::End => Command::Bottom,
        Key::PageUp => Command::PageUp,
        Key::PageDown => Command::PageDown,
        Key::Esc => Command::ClearFilters,
        _ => Command::Noop,
    }
}

/// The command a key stands for (see `command_of`).
pub fn key_to_command(key: Key) -> (r: Command)
    ensures
        r == command_of(key),
{
    match key {
        Key::Char(c) => {
            if c == 'q' || c == 'й' {
                Command::Quit
            } else if c == 'l' || c == 'L' || c == 'л' || c == 'Л' {
                Command::Language
            } else if c == 'k' || c == 'к' {
                Command::Up
            } else if c == 'j' || c == 'о' {
                Command::Down
            } else if c == 'g' || c == 'г' {
                Command::Top
            } else if c == 'G' || c == 'Г' {
                Command::Bottom
            } else if c == 'n' || c == 'т' {
                Command::NewTask
            } else if c == 'e' || c == 'у' {
                Command::EditTask
            } else if c == ' ' {
                Command::ToggleDone
            } else if c == 'p' || c == 'з' {
                Command::TogglePin
            } else if c == 't' || c == 'е' {
                Command::SetTag
            } else if c == 'd' || c == 'в' {
                Command::DeleteTask
            } else if c == 'D' || c == 'В' {
                Command::DeleteAll
            } else if c == '/' || c == '.' {
                Command::Search
            } else if c == 'M' || c == 'm' || c == 'ь' || c == 'Ь' {
                Command::SetDueDate
            } else if '1' <= c && c <= '9' {
                Command::FilterTag((c as u32 - '1' as u32) as usize)
            } else {
                Command::Noop
            }
        },
        Key::Up => Command::Up,
        Key::Down => Command::Down,
        Key::Home => Command::Top,
        Key::End => Command::Bottom,
        Key::PageUp => Command::PageUp,
        Key::PageDown => Command::PageDown,
        Key::Esc => Command::ClearFilters,
        _ => Command::Noop,
    }
}

} // verus!
