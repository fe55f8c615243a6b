use vstd::prelude::*;
use crate::commands::Key;
use crate::text::push_char;

verus! {

/// A rectangle of the terminal, in cells.
#[derive(Clone, Copy, PartialEq, Eq, Structural, Debug)]
pub struct Area {
    pub x: u16,
    pub y: u16,
    pub width: u16,
    pub height: u16,
}

/// Calls `String::pop`: removes and returns the last character, `None` for
/// an empty string.
#[verifier::external_body]
fn pop_char(s: &mut String) -> (r: Option<char>)
    ensures
        old(s)@.len() == 0 ==> r is None && final(s)@ == old(s)@,
        old(s)@.len() > 0 ==> r == Some(old(s)@.last()) && final(s)@ == old(s)@.drop_last(),
{
    s.pop()
}

/// What the task list shows and how the user moves over it.
pub struct Session {
    /// The (id, indent) rows shown.
    pub visible: Vec<(u64, usize)>,
    pub selected: usize,
    /// The first row on screen.
    pub list_top: usize,
    pub message: String,
    /// Ticks left before the message goes.
    pub message_ttl: u8,
    /// Ticks left of the celebration.
    pub celebrate: u8,
    pub search_mode: bool,
    pub search_buffer: String,
    /// Where the list was drawn last.
    pub list_area: Option<Area>,
    pub mouse_dragging: bool,
    /// For each screen line of the list, the row (from `list_top`) it shows.
    pub line_to_task: Vec<usize>,
}

/// A selection fits a list of `n` rows: on a row, or 0 when there is none.
pub open spec fn selection_ok(selected: nat, n: nat) -> bool {
    if n == 0 {
        selected == 0
    } else {
        selected < n
    }
}

/// The selection kept in a list of `n` rows: the last row when it was past it.
pub open spec fn clamped(selected: nat, n: nat) -> nat {
    if selected >= n {
        if n == 0 { 0 } else { (n - 1) as nat }
    } else {
        selected
    }
}

/// What a key does while a search is typed.
#[derive(PartialEq, Eq, Structural, Clone, Copy, Debug)]
pub enum SearchOutcome {
    /// The query changed: the list is to be rebuilt.
    Changed,
    /// The search was left without a query: the list is to be rebuilt.
    Cancelled,
    /// The query was kept: it becomes the search, the list is to be rebuilt.
    Committed,
    /// Nothing happened.
    Ignored,
}

/// The first row shown of a list of `n` rows in a window of `h` rows that
/// started at `top`, after scrolling to the selected row, and back up when
/// the window would reach past the end.
pub open spec fn list_scrolled(sel: int, top: int, h: int, n: int) -> int {
    let t1 = if sel < top { sel } else if sel >= top + h { if sel >= h - 1 { sel - (h - 1) } else { 0 } } else { top };
    if t1 + h > n {
        if n >= h { n - h } else { 0 }
    } else {
        t1
    }
}

/// The row of the list under a mouse position, when the position is inside
/// the list and its line shows a row.
pub open spec fn row_under(s: Session, row: u16, column: u16) -> Option<usize> {
    match s.list_area {
        Some(a) => {
            if a.y <= row < a.y + a.height && a.x <= column < a.x + a.width
                && row - a.y < s.line_to_task@.len()
                && s.list_top + s.line_to_task@[row - a.y] < s.visible@.len() {
                Some((s.list_top + s.line_to_task@[row - a.y]) as usize)
            } else {
                None
            }
        },
        None => None,
    }
}

impl Session {
    pub open spec fn wf(&self) -> bool {
        selection_ok(self.selected as nat, self.visible@.len())
    }

    /// An empty list, nothing selected, no message, no search.
    pub fn new() -> (r: Session)
        ensures
            r.wf(),
            r.visible@.len() == 0,
            r.selected == 0,
            r.list_top == 0,
            r.message@.len() == 0,
            r.message_ttl == 0,
            r.celebrate == 0,
            !r.search_mode,
            r.search_buffer@.len() == 0,
            r.list_area is None,
            !r.mouse_dragging,
            r.line_to_task@.len() == 0,
    {
        Session {
            visible: Vec::new(),
            selected: 0,
            list_top: 0,
            message: String::new(),
            message_ttl: 0,
            celebrate: 0,
            search_mode: false,
            search_buffer: String::new(),
            list_area: None,
            mouse_dragging: false,
            line_to_task: Vec::new(),
        }
    }

    /// Shows new rows, keeping the selection on the list.
    pub fn set_visible(&mut self, rows: Vec<(u64, usize)>)
        ensures
            final(self).wf(),
            final(self).visible@ == rows@,
            final(self).selected == clamped(old(self).selected as nat, rows@.len()),
            final(self).list_top == old(self).list_top,
            final(self).search_mode == old(self).search_mode,
            final(self).search_buffer == old(self).search_buffer,
    {
        self.visible = rows;
        if self.selected >= self.visible.len() {
            self.selected = if self.visible.len() == 0 { 0 } else { self.visible.len() - 1 };
        }
    }

    /// Shows a message for 5 ticks.
    pub fn set_message(&mut self, msg: &str)
        ensures
            final(self).message@ == msg@,
            final(self).message_ttl == 5,
            final(self).visible == old(self).visible,
            final(self).selected == old(self).selected,
            final(self).celebrate == old(self).celebrate,
    {
        self.message = String::from_str(msg);
        self.message_ttl = 5;
    }

    /// Starts the celebration, for `frames` ticks, when some tasks exist and
    /// none is pending; says whether it did.
    pub fn celebrate_if_all_done(&mut self, pending: usize, total: usize, frames: u8) -> (r: bool)
        ensures
            r == (pending == 0 && total > 0),
            r ==> final(self).celebrate == frames,
            !r ==> final(self).celebrate == old(self).celebrate,
            final(self).visible == old(self).visible,
            final(self).selected == old(self).selected,
            final(self).message == old(self).message,
            final(self).message_ttl == old(self).message_ttl,
    {
        if pending == 0 && total > 0 {
            self.celebrate = frames;
            true
        } else {
            false
        }
    }

    /// One tick: the celebration and the message's time run down; a message
    /// whose time is out is cleared.
    pub fn tick(&mut self)
        ensures
            final(self).celebrate == (if old(self).celebrate > 0 { old(self).celebrate - 1 } else { 0 }),
            final(self).message_ttl == (if old(self).message_ttl > 0 { old(self).message_ttl - 1 } else { 0 }),
            old(self).message_ttl > 0 ==> final(self).message == old(self).message,
            old(self).message_ttl == 0 ==> final(self).message@.len() == 0,
            final(self).visible == old(self).visible,
            final(self).selected == old(self).selected,
    {
        if self.celebrate > 0 {
            self.celebrate = self.celebrate - 1;
        }
        if self.message_ttl > 0 {
            self.message_ttl = self.message_ttl - 1;
        } else {
            self.message = String::new();
        }
    }

    /// Moves the selection one row up, if there is one.
    pub fn up(&mut self)
        requires
            old(self).wf(),
        ensures
            final(self).wf(),
            final(self).visible == old(self).visible,
            final(self).selected == (if old(self).selected > 0 { old(self).selected - 1 } else { 0 }),
    {
        if self.selected > 0 {
            self.selected = self.selected - 1;
        }
    }

    /// Moves the selection one row down, if there is one.
    pub fn down(&mut self)
        requires
            old(self).wf(),
        ensures
            final(self).wf(),
            final(self).visible == old(self).visible,
            final(self).selected == (if old(self).selected + 1 < old(self).visible@.len() {
                old(self).selected + 1
            } else {
                old(self).selected as int
            }),
    {
        let n = self.visible.len();
        if n > 0 && self.selected < n - 1 {
            self.selected = self.selected + 1;
        }
    }

    /// Selects the first row.
    pub fn top(&mut self)
        ensures
            final(self).wf(),
            final(self).visible == old(self).visible,
            final(self).selected == 0,
    {
        self.selected = 0;
    }

    /// Selects the last row.
    pub fn bottom(&mut self)
        ensures
            final(self).wf(),
            final(self).visible == old(self).visible,
            final(self).selected == (if old(self).visible@.len() > 0 { old(self).visible@.len() - 1 } else { 0 }),
    {
        self.selected = self.visible.len().saturating_sub(1);
    }

    /// Moves a page up: as many rows as the terminal's height less 5.
    pub fn page_up(&mut self, term_height: u16)
        requires
            old(self).wf(),
        ensures
            final(self).wf(),
            final(self).visible == old(self).visible,
            final(self).selected as int == (if old(self).selected >= term_height - 5 && term_height >= 5 {
                old(self).selected - (term_height - 5)
            } else if term_height < 5 {
                old(self).selected as int
            } else {
                0
            }),
    {
        let step = (term_height as usize).saturating_sub(5);
        self.selected = self.selected.saturating_sub(step);
    }

    /// Moves a page down: as many rows as the terminal's height less 5,
    /// stopping at the last row.
    pub fn page_down(&mut self, term_height: u16)
        requires
            old(self).wf(),
        ensures
            final(self).wf(),
            final(self).visible == old(self).visible,
            ({
                let step = if term_height >= 5 { term_height - 5 } else { 0 };
                let last = if old(self).visible@.len() > 0 { old(self).visible@.len() - 1 } else { 0 };
                final(self).selected as int == if old(self).selected + step < last { old(self).selected + step } else { last }
            }),
    {
        let step = (term_height as usize).saturating_sub(5);
        let last = self.visible.len().saturating_sub(1);
        self.selected = if step < last - self.selected { self.selected + step } else { last };
    }

    /// The id of the selected row's task.
    pub fn selected_id(&self) -> (r: Option<u64>)
        requires
            self.wf(),
        ensures
            self.visible@.len() == 0 ==> r is None,
            self.visible@.len() > 0 ==> r == Some(self.visible@[self.selected as int].0),
    {
        if self.visible.len() == 0 {
            None
        } else {
            Some(self.visible[self.selected].0)
        }
    }

    /// Selects the row under a mouse position inside the list, when that
    /// line shows a row of the list.
    pub fn select_at(&mut self, row: u16, column: u16)
        requires
            old(self).wf(),
        ensures
            final(self).wf(),
            final(self).visible == old(self).visible,
            final(self).list_area == old(self).list_area,
            final(self).line_to_task == old(self).line_to_task,
            final(self).list_top == old(self).list_top,
            ({
                let hit = match old(self).list_area {
                    Some(a) => {
                        if a.y <= row < a.y + a.height && a.x <= column < a.x + a.width
                            && row - a.y < old(self).line_to_task@.len()
                            && old(self).list_top + old(self).line_to_task@[row - a.y] < old(self).visible@.len() {
                            Some((old(self).list_top + old(self).line_to_task@[row - a.y]) as usize)
                        } else {
                            None
                        }
                    },
                    None => None,
                };
                final(self).selected == match hit {
                    Some(i) => i,
                    None => old(self).selected,
                }
            }),
    {
        if let Some(a) = self.list_area {
            if row >= a.y && (row - a.y) < a.height && column >= a.x && (column - a.x) < a.width {
                let line = (row - a.y) as usize;
                if line < self.line_to_task.len() {
                    let task = self.line_to_task[line];
                    let n = self.visible.len();
                    if self.list_top < n && task < n - self.list_top {
                        self.selected = self.list_top + task;
                    }
                }
            }
        }
    }

    /// A click: selects the row under the mouse; when it was already the
    /// selected row, returns its task, whose subtasks are to be shown or hidden.
    pub fn click(&mut self, row: u16, column: u16) -> (r: Option<u64>)
        requires
            old(self).wf(),
        ensures
            final(self).wf(),
            final(self).visible == old(self).visible,
            final(self).list_area == old(self).list_area,
            final(self).line_to_task == old(self).line_to_task,
            final(self).list_top == old(self).list_top,
            final(self).selected == match row_under(*old(self), row, column) {
                Some(i) => i,
                None => old(self).selected,
            },
            r == (if final(self).selected == old(self).selected && old(self).selected < old(self).visible@.len() {
                Some(old(self).visible@[old(self).selected as int].0)
            } else {
                None::<u64>
            }),
    {
        let before = self.selected;
        self.select_at(row, column);
        if self.selected == before && self.selected < self.visible.len() {
            Some(self.visible[self.selected].0)
        } else {
            None
        }
    }

    /// Starts typing a search.
    pub fn start_search(&mut self)
        ensures
            final(self).search_mode,
            final(self).search_buffer@.len() == 0,
            final(self).visible == old(self).visible,
            final(self).selected == old(self).selected,
    {
        self.search_mode = true;
        self.search_buffer = String::new();
    }

    /// Leaves any search and selects the first row, when the filters are cleared.
    pub fn clear_search(&mut self)
        ensures
            final(self).wf(),
            !final(self).search_mode,
            final(self).search_buffer@.len() == 0,
            final(self).selected == 0,
            final(self).visible == old(self).visible,
    {
        self.search_mode = false;
        self.search_buffer = String::new();
        self.selected = 0;
    }

    /// A key typed during a search: a character is added while the query
    /// is under 64 bytes, Backspace removes the last one (both select the
    /// first row), Esc leaves the search and Enter keeps the query.
    pub fn search_key(&mut self, key: Key) -> (r: SearchOutcome)
        requires
            old(self).wf(),
        ensures
            final(self).wf(),
            final(self).visible == old(self).visible,
            match key {
                Key::Char(c) => if (vstd::utf8::encode_utf8(old(self).search_buffer@).len() as usize) < 64 {
                    r == SearchOutcome::Changed && final(self).search_buffer@ == old(self).search_buffer@.push(c)
                        && final(self).selected == 0 && final(self).search_mode == old(self).search_mode
                } else {
                    r == SearchOutcome::Ignored && final(self).search_buffer == old(self).search_buffer
                        && final(self).selected == old(self).selected && final(self).search_mode == old(self).search_mode
                },
                Key::Backspace => r == SearchOutcome::Changed && final(self).selected == 0
                    && final(self).search_mode == old(self).search_mode
                    && final(self).search_buffer@ == (if old(self).search_buffer@.len() > 0 {
                        old(self).search_buffer@.drop_last()
                    } else {
                        old(self).search_buffer@
                    }),
                Key::Esc => r == SearchOutcome::Cancelled && !final(self).search_mode
                    && final(self).search_buffer@.len() == 0 && final(self).selected == old(self).selected,
                Key::Enter => r == SearchOutcome::Committed && !final(self).search_mode
                    && final(self).search_buffer == old(self).search_buffer && final(self).selected == old(self).selected,
                _ => r == SearchOutcome::Ignored && final(self).search_buffer == old(self).search_buffer
                    && final(self).selected == old(self).selected && final(self).search_mode == old(self).search_mode,
            },
    {
        match key {
            Key::Char(c) => {
                if self.search_buffer.as_str().len() < 64 {
                    push_char(&mut self.search_buffer, c);
                    self.selected = 0;
                    SearchOutcome::Changed
                } else {
                    SearchOutcome::Ignored
                }
            },
            Key::Backspace => {
                pop_char(&mut self.search_buffer);
                self.selected = 0;
                SearchOutcome::Changed
            },
            Key::Esc => {
                self.search_mode = false;
                self.search_buffer = String::new();
                SearchOutcome::Cancelled
            },
            Key::Enter => {
                self.search_mode = false;
                SearchOutcome::Committed
            },
            _ => SearchOutcome::Ignored,
        }
    }

    /// Hands over the typed query, once a search is kept, and empties the
    /// input.
    pub fn take_query(&mut self) -> (r: String)
        ensures
            r@ == old(self).search_buffer@,
            final(self).search_buffer@.len() == 0,
            final(self).search_mode == old(self).search_mode,
            final(self).visible == old(self).visible,
            final(self).selected == old(self).selected,
    {
        let mut q = String::new();
        std::mem::swap(&mut q, &mut self.search_buffer);
        q
    }

    /// Takes a tag filter from the `idx`-th tag of the tag list: the same
    /// tag twice clears it. Selects the first row; false, with nothing
    /// changed, when there is no such tag.
    pub fn filter_by_tag(&mut self, tags: &Vec<(String, usize)>, idx: usize, filter_tag: &mut String) -> (r: bool)
        requires
            old(self).wf(),
        ensures
            final(self).wf(),
            final(self).visible == old(self).visible,
            r == (idx < tags@.len()),
            r ==> final(self).selected == 0 && final(filter_tag)@ == (if old(filter_tag)@ == tags@[idx as int].0@ {
                Seq::<char>::empty()
            } else {
                tags@[idx as int].0@
            }),
            !r ==> final(self).selected == old(self).selected && final(filter_tag)@ == old(filter_tag)@,
    {
        if idx < tags.len() {
            let tag = tags[idx].0.clone();
            if *filter_tag == tag {
                *filter_tag = String::new();
            } else {
                *filter_tag = tag;
            }
            self.selected = 0;
            true
        } else {
            false
        }
    }

    /// After the selected task was deleted: the selection moves up when it
    /// was on the last row (or past it) and not on the first.
    pub fn after_delete(&mut self)
        requires
            old(self).wf(),
        ensures
            final(self).wf(),
            final(self).visible == old(self).visible,
            final(self).selected == (if old(self).selected + 1 >= old(self).visible@.len() && old(self).selected > 0 {
                old(self).selected - 1
            } else {
                old(self).selected as int
            }),
    {
        if self.selected >= self.visible.len().saturating_sub(1) && self.selected > 0 {
            self.selected = self.selected - 1;
        }
    }

    /// Scrolls the list, shown in `height` rows, to the selected row (see
    /// `list_scrolled`); returns the number of rows below the window.
    pub fn scroll_list(&mut self, height: usize) -> (remaining: usize)
        requires
            old(self).wf(),
            height > 0,
        ensures
            final(self).wf(),
            final(self).visible == old(self).visible,
            final(self).selected == old(self).selected,
            final(self).list_top as int == list_scrolled(old(self).selected as int, old(self).list_top as int,
                height as int, old(self).visible@.len() as int),
            remaining as int == (if height < old(self).visible@.len() && final(self).list_top + height <= old(self).visible@.len() {
                old(self).visible@.len() - (final(self).list_top + height)
            } else {
                0
            }),
    {
        let n = self.visible.len();
        let sel = self.selected;
        if sel < self.list_top {
            self.list_top = sel;
        } else if sel - self.list_top >= height {
            self.list_top = sel.saturating_sub(height - 1);
        }
        if self.list_top > n || n - self.list_top < height {
            self.list_top = n.saturating_sub(height);
        }
        if height < n && self.list_top <= n - height {
            n - (self.list_top + height)
        } else {
            0
        }
    }
}

} // verus!
