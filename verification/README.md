# nyado

A terminal task manager with nested tasks, tags, search, pinning, due dates,
projects and several interface languages. The logic is a Verus library whose
functions carry `requires` / `ensures` contracts proved by Verus; a thin
program around it draws the screen, reads keys and touches the disk.

## Layout

- `src/` – the verified library
  - `todo.rs` – tasks as trees, their model (`TaskView`), search, update,
    display order, ids
  - `storage.rs` – the task list of a project: counts, toggling, pinning,
    tags, removal, the visible rows and the flat listing
  - `projects.rs` – project names and the rules for creating, renaming,
    deleting and switching projects
  - `legacy.rs` – reading the old pipe-separated task file
  - `text.rs` – display widths, truncation, wrapping, cursor positions
  - `editor.rs` – the line editor, the text editor and the project picker
    as state machines
  - `session.rs` – selection, scrolling, search input and messages
  - `commands.rs` – key bindings
  - `i18n.rs` – localisations, fallback to English, language switching
  - `time.rs` – due date parsing
  - `cli.rs` – command-line arguments and the decisions of the commands
  - `progress.rs`, `panel.rs` – what the progress bar and the side panel show
  - `config.rs` – the settings and their defaults
- `tests/` – tests of the library
- `app/` – the program: terminal, files, configuration, language files,
  command-line output
