use vstd::prelude::*;

verus! {

/// The limits and timings the program runs with.
#[derive(Clone, Debug)]
pub struct Config {
    /// Most tasks a project may hold.
    pub max_todos: usize,
    /// Backups kept of a project file.
    pub max_backups: usize,
    /// Most projects.
    pub max_projects: usize,
    /// Deepest level a subtask may sit at.
    pub max_depth: usize,
    pub show_calendar: bool,
    /// Frames the celebration lasts.
    pub celebration_duration_frames: u8,
    /// Frames between blinks of the celebration.
    pub celebration_blink_interval: u8,
    /// Time between frames of the celebration, in milliseconds.
    pub celebration_frame_delay_ms: u64,
}

impl Default for Config {
    /// 2048 tasks, 5 backups, 64 projects, depth 2, the calendar shown, a
    /// celebration of 30 frames blinking every 4, 80 ms apart.
    fn default() -> (r: Config)
        ensures
            r.max_todos == 2048,
            r.max_backups == 5,
            r.max_projects == 64,
            r.max_depth == 2,
            r.show_calendar,
            r.celebration_duration_frames == 30,
            r.celebration_blink_interval == 4,
            r.celebration_frame_delay_ms == 80,
    {
        Config {
            max_todos: 2048,
            max_backups: 5,
            max_projects: 64,
            max_depth: 2,
            show_calendar: true,
            celebration_duration_frames: 30,
            celebration_blink_interval: 4,
            celebration_frame_delay_ms: 80,
        }
    }
}

} // verus!
