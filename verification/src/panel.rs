use vstd::prelude::*;
use crate::todo::{Todo, TaskView, forest_view, lemma_forest_view};
use crate::legacy::{split_chars, split_on, vec_views};
use crate::text::{chars_of, string_of};

verus! {

/// The key of the mood line for the number of pending tasks: all done,
/// empty, then one mood per band of 1, up to 3, 7, 15, 31, 63, 127, 255
/// pending tasks, and one for more.
pub open spec fn mood_of(pending: nat, total: nat) -> Seq<char> {
    if pending == 0 && total > 0 {
        "mood_all_done"@
    } else if pending == 0 {
        "mood_empty"@
    } else if pending == 1 {
        "mood_one"@
    } else if pending <= 3 {
        "mood_few"@
    } else if pending <= 7 {
        "mood_several"@
    } else if pending <= 15 {
        "mood_lots"@
    } else if pending <= 31 {
        "mood_heap"@
    } else if pending <= 63 {
        "mood_pile"@
    } else if pending <= 127 {
        "mood_overwhelming"@
    } else if pending <= 255 {
        "mood_hectic"@
    } else {
        "mood_crazy"@
    }
}

/// The key of the mood line (see `mood_of`).
pub fn mood_key(pending: usize, total: usize) -> (r: &'static str)
    ensures
        r@ == mood_of(pending as nat, total as nat),
{
    if pending == 0 && total > 0 {
        "mood_all_done"
    } else if pending == 0 {
        "mood_empty"
    } else if pending == 1 {
        "mood_one"
    } else if pending <= 3 {
        "mood_few"
    } else if pending <= 7 {
        "mood_several"
    } else if pending <= 15 {
        "mood_lots"
    } else if pending <= 31 {
        "mood_heap"
    } else if pending <= 63 {
        "mood_pile"
    } else if pending <= 127 {
        "mood_overwhelming"
    } else if pending <= 255 {
        "mood_hectic"
    } else {
        "mood_crazy"
    }
}

/// A pending task whose due time has passed at `now`.
pub open spec fn overdue_at_now(t: TaskView, now: u64) -> bool {
    !t.done && t.due_date > 0 && t.due_date < now
}

/// Number of top-level tasks among `s` overdue at `now`.
pub open spec fn overdue_count(s: Seq<TaskView>, now: u64) -> nat
    decreases s.len(),
{
    if s.len() == 0 {
        0
    } else {
        overdue_count(s.drop_last(), now) + (if overdue_at_now(s.last(), now) { 1nat } else { 0nat })
    }
}

/// Number of top-level tasks overdue at `now` (subtasks are not counted).
pub fn overdue_top_level(todos: &Vec<Todo>, now: u64) -> (r: usize)
    ensures
        r == overdue_count(forest_view(todos@), now),
{
    let ghost fv = forest_view(todos@);
    proof {
        lemma_forest_view(todos@);
    }
    let mut n: usize = 0;
    let mut i: usize = 0;
    while i < todos.len()
        invariant
            i <= todos@.len(),
            fv == forest_view(todos@),
            fv.len() == todos@.len(),
            forall|j: int| 0 <= j < fv.len() ==> #[trigger] fv[j] == todos@[j]@,
            n == overdue_count(fv.take(i as int), now),
            n <= i,
        decreases todos.len() - i,
    {
        proof {
            assert(fv.take(i as int + 1).drop_last() =~= fv.take(i as int));
            assert(fv.take(i as int + 1).last() == todos@[i as int]@);
        }
        let t = &todos[i];
        if !t.done && t.due_date > 0 && t.due_date < now {
            n = n + 1;
        }
        i = i + 1;
    }
    proof {
        assert(fv.take(i as int) =~= fv);
    }
    n
}

/// How a day of the calendar is marked.
#[derive(PartialEq, Eq, Structural, Clone, Copy, Debug)]
pub enum DayMark {
    Today,
    /// A pending task is due that day.
    DueOpen,
    /// A done task is due that day.
    DueDone,
    /// Saturday or Sunday.
    Weekend,
    Plain,
}

/// The mark of a day in column `col` (0 for Monday) of the calendar, given
/// today's day and the (day, done) pairs of the tasks due in the month:
/// today first, then a day on which a pending task is due, then one on
/// which a done task is due, then the weekend.
pub open spec fn day_mark_of(day: u32, today: u32, col: usize, due: Seq<(u32, bool)>) -> DayMark {
    if day == today {
        DayMark::Today
    } else if due.contains((day, false)) {
        DayMark::DueOpen
    } else if due.contains((day, true)) {
        DayMark::DueDone
    } else if col >= 5 {
        DayMark::Weekend
    } else {
        DayMark::Plain
    }
}

/// The mark of a day of the calendar (see `day_mark_of`).
pub fn day_mark(day: u32, today: u32, col: usize, due: &Vec<(u32, bool)>) -> (r: DayMark)
    ensures
        r == day_mark_of(day, today, col, due@),
{
    if day == today {
        return DayMark::Today;
    }
    let mut open = false;
    let mut done = false;
    let mut i: usize = 0;
    while i < due.len()
        invariant
            i <= due@.len(),
            open == exists|k: int| 0 <= k < i && due@[k] == (day, false),
            done == exists|k: int| 0 <= k < i && due@[k] == (day, true),
        decreases due.len() - i,
    {
        let (d, f) = due[i];
        if d == day {
            if f {
                done = true;
            } else {
                open = true;
            }
        }
        i = i + 1;
    }
    proof {
        if open {
            let k = choose|k: int| 0 <= k < due@.len() && due@[k] == (day, false);
            assert(due@.contains((day, false)));
        }
        if done {
            let k = choose|k: int| 0 <= k < due@.len() && due@[k] == (day, true);
            assert(due@.contains((day, true)));
        }
    }
    if open {
        DayMark::DueOpen
    } else if done {
        DayMark::DueDone
    } else if col >= 5 {
        DayMark::Weekend
    } else {
        DayMark::Plain
    }
}

/// The cells of a month's calendar, seven to a week, Monday first: blank
/// (0) before the first day, which falls on weekday `week_start` (0 for
/// Monday), and after the last of the `days`; as many weeks as the days need.
pub open spec fn calendar_cell(k: int, days: int, week_start: int) -> int {
    if k < week_start || k - week_start >= days {
        0
    } else {
        k - week_start + 1
    }
}

/// The calendar's cells, week by week (see `calendar_cell`).
pub fn calendar_cells(days: u32, week_start: u32) -> (r: Vec<u32>)
    requires
        1 <= days <= 31,
        week_start < 7,
    ensures
        r@.len() == 7 * ((week_start + days + 6) / 7),
        forall|k: int| 0 <= k < r@.len() ==> #[trigger] r@[k] == calendar_cell(k, days as int, week_start as int),
{
    let weeks = (week_start + days + 6) / 7;
    let total = 7 * weeks;
    let mut r: Vec<u32> = Vec::new();
    let mut k: u32 = 0;
    while k < total
        invariant
            total == 7 * ((week_start + days + 6) / 7),
            total <= 49,
            1 <= days <= 31,
            week_start < 7,
            k <= total,
            r@.len() == k,
            forall|j: int| 0 <= j < k ==> #[trigger] r@[j] == calendar_cell(j, days as int, week_start as int),
        decreases total - k,
    {
        let cell = if k < week_start || k - week_start >= days { 0 } else { k - week_start + 1 };
        r.push(cell);
        k = k + 1;
    }
    r
}

/// The lines of a task's text shown in `width` columns of characters: each
/// line of the text cut into pieces of `width` characters; an empty line
/// gives no piece.
pub open spec fn detail_pieces(line: Seq<char>, width: nat) -> Seq<Seq<char>>
    decreases line.len(),
{
    if line.len() == 0 || width == 0 {
        Seq::empty()
    } else if line.len() <= width {
        seq![line]
    } else {
        seq![line.take(width as int)] + detail_pieces(line.skip(width as int), width)
    }
}

pub open spec fn detail_lines_of(lines: Seq<Seq<char>>, width: nat) -> Seq<Seq<char>>
    decreases lines.len(),
{
    if lines.len() == 0 {
        Seq::empty()
    } else {
        detail_lines_of(lines.drop_last(), width) + detail_pieces(lines.last(), width)
    }
}

/// The lines of a task's text for the detail view (see `detail_pieces`),
/// the text being split at each `\n`.
pub fn detail_lines(text: &str, width: usize) -> (r: Vec<String>)
    requires
        width > 0,
    ensures
        r@.map_values(|s: String| s@) == detail_lines_of(split_on(text@, '\n'), width as nat),
{
    let chars = chars_of(text);
    let parts = split_chars(&chars, '\n');
    let ghost pv = vec_views(parts@);
    proof {
        assert(forall|i: int| 0 <= i < parts@.len() ==> #[trigger] pv[i] == parts@[i]@);
    }
    let mut out: Vec<String> = Vec::new();
    let mut i: usize = 0;
    while i < parts.len()
        invariant
            pv == vec_views(parts@),
            pv == split_on(text@, '\n'),
            pv.len() == parts@.len(),
            forall|j: int| 0 <= j < parts@.len() ==> #[trigger] pv[j] == parts@[j]@,
            width > 0,
            i <= parts@.len(),
            out@.map_values(|s: String| s@) == detail_lines_of(pv.take(i as int), width as nat),
        decreases parts.len() - i,
    {
        proof {
            assert(pv.take(i as int + 1).drop_last() =~= pv.take(i as int));
            assert(pv.take(i as int + 1).last() == parts@[i as int]@);
        }
        let line = &parts[i];
        let n = line.len();
        let ghost before = out@.map_values(|s: String| s@);
        let mut start: usize = 0;
        proof {
            assert(line@.skip(0) =~= line@);
            assert(before + Seq::<Seq<char>>::empty() =~= before);
        }
        while start < n
            invariant
                n == line@.len(),
                width > 0,
                start <= n,
                out@.map_values(|s: String| s@) + detail_pieces(line@.skip(start as int), width as nat)
                    == before + detail_pieces(line@, width as nat),
            decreases n - start,
        {
            let end = if n - start > width { start + width } else { n };
            let mut piece: Vec<char> = Vec::new();
            let mut k: usize = start;
            while k < end
                invariant
                    start <= k <= end,
                    end <= n,
                    n == line@.len(),
                    piece@ == line@.subrange(start as int, k as int),
                decreases end - k,
            {
                piece.push(line[k]);
                proof {
                    assert(line@.subrange(start as int, k as int + 1) =~= line@.subrange(start as int, k as int).push(line@[k as int]));
                }
                k = k + 1;
            }
            let ghost o0 = out@.map_values(|s: String| s@);
            let ghost rest = line@.skip(start as int);
            out.push(string_of(&piece));
            proof {
                assert(out@.map_values(|s: String| s@) =~= o0.push(piece@));
                if n - start > width {
                    assert(piece@ =~= rest.take(width as int));
                    assert(rest.skip(width as int) =~= line@.skip(end as int));
                    assert(detail_pieces(rest, width as nat) == seq![rest.take(width as int)] + detail_pieces(rest.skip(width as int), width as nat));
                    assert(o0.push(piece@) + detail_pieces(line@.skip(end as int), width as nat)
                        =~= o0 + (seq![piece@] + detail_pieces(line@.skip(end as int), width as nat)));
                } else {
                    assert(piece@ =~= rest);
                    assert(line@.skip(end as int) =~= Seq::<char>::empty());
                    assert(detail_pieces(rest, width as nat) == seq![rest]);
                    assert(o0.push(piece@) + detail_pieces(line@.skip(end as int), width as nat) =~= o0 + seq![rest]);
                }
            }
            start = end;
        }
        proof {
            assert(line@.skip(start as int) =~= Seq::<char>::empty());
            assert(out@.map_values(|s: String| s@) + Seq::<Seq<char>>::empty() =~= out@.map_values(|s: String| s@));
        }
        i = i + 1;
    }
    proof {
        assert(pv.take(i as int) =~= pv);
    }
    out
}

} // verus!
