use vstd::prelude::*;
use std::collections::HashSet;
use crate::text::{contains_str, lowercase_of, occurs_in, to_lowercase};
use crate::todo::{
    any_task, apply_edit_forest, lemma_count_elem, find_tree, has_tag, listed_count, lemma_listed_at, tag_list_ok, count_forest, count_tree, done_task, edit_fn, find_forest, find_in_forest,
    forest_view, first_holding, lemma_first_hit, lemma_forest_view_update, replaced_by, lemma_count_append, lemma_count_mono, lemma_count_split, lemma_forest_view, lemma_update_miss,
    node_view, now_secs, pending_task, pinned_pending_task, sort_forest, sorted_forest, mark_forest, mark_tree, update_tree,
    tally_pred, update_forest, fresh_task, fresh_subtask, generate_id, law_sort_keeps_tasks, strip, pinned_to, due_to, tagged_as, worded_as, marked, with_child, Edit, Tally, TaskView, Todo,
};

verus! {

broadcast use vstd::std_specs::hash::group_hash_axioms;

/// Why a change to the task list was refused.
#[derive(PartialEq, Eq, Structural, Clone, Copy, Debug)]
pub enum StorageError {
    /// No task has the given id.
    TaskNotFound,
    /// No task has the id given for the parent of a new subtask.
    ParentNotFound,
    /// The parent of a new subtask already sits at the deepest level allowed.
    MaxDepthReached,
}

/// The tasks of the current project and the view settings over them.
pub struct Storage {
    pub todos: Vec<Todo>,
    pub search: String,
    pub filter_tag: String,
    pub tags_available: Vec<(String, usize)>,
    pub dirty_tags: bool,
    pub projects_dir: String,
    pub current_project: String,
    pub expanded: HashSet<u64>,
}

/// Everything of a storage but its task list is the same in both.
pub open spec fn same_settings(a: Storage, b: Storage) -> bool {
    &&& a.search == b.search
    &&& a.filter_tag == b.filter_tag
    &&& a.tags_available == b.tags_available
    &&& a.projects_dir == b.projects_dir
    &&& a.current_project == b.current_project
    &&& a.expanded@ == b.expanded@
}

/// Number of tasks of a forest that the tally counts.
pub fn tally_forest(v: &Vec<Todo>, k: &Tally) -> (r: usize)
    requires
        count_forest(forest_view(v@), tally_pred(*k)) <= usize::MAX,
    ensures
        r == count_forest(forest_view(v@), tally_pred(*k)),
{
    let ghost p = tally_pred(*k);
    let ghost fv = forest_view(v@);
    proof {
        lemma_forest_view(v@);
    }
    let mut acc: usize = 0;
    let mut i: usize = 0;
    while i < v.len()
        invariant
            i <= v.len(),
            p == tally_pred(*k),
            fv == forest_view(v@),
            fv.len() == v@.len(),
            forall|j: int| 0 <= j < fv.len() ==> #[trigger] fv[j] == node_view(v@[j]),
            count_forest(fv, p) <= usize::MAX,
            acc == count_forest(fv.take(i as int), p),
        decreases v.len() - i,
    {
        proof {
            lemma_count_append(fv.take(i as int + 1), fv.skip(i as int + 1), p);
            assert(fv =~= fv.take(i as int + 1) + fv.skip(i as int + 1));
            assert(fv.take(i as int + 1).drop_last() =~= fv.take(i as int));
        }
        let c = v[i].tally(k);
        acc = acc + c;
        i = i + 1;
    }
    proof {
        assert(fv.take(i as int) =~= fv);
    }
    acc
}

impl Storage {
    /// The model of the task list.
    pub open spec fn tasks(&self) -> Seq<TaskView> {
        forest_view(self.todos@)
    }

    /// An empty storage for the "default" project kept in `projects_dir`.
    pub fn new(projects_dir: String) -> (r: Storage)
        ensures
            r.tasks() == Seq::<TaskView>::empty(),
            r.search@ == Seq::<char>::empty(),
            r.filter_tag@ == Seq::<char>::empty(),
            r.tags_available@ == Seq::<(String, usize)>::empty(),
            r.dirty_tags,
            r.projects_dir == projects_dir,
            r.current_project@ == "default"@,
            r.expanded@ == Set::<u64>::empty(),
    {
        let r = Storage {
            todos: Vec::new(),
            search: String::new(),
            filter_tag: String::new(),
            tags_available: Vec::new(),
            dirty_tags: true,
            projects_dir,
            current_project: String::from_str("default"),
            expanded: HashSet::new(),
        };
        proof {
            assert(forest_view(r.todos@) =~= Seq::<TaskView>::empty());
        }
        r
    }

    /// Number of tasks, subtasks included.
    pub fn total_count(&self) -> (r: usize)
        requires
            count_forest(self.tasks(), any_task()) <= usize::MAX,
        ensures
            r == count_forest(self.tasks(), any_task()),
    {
        tally_forest(&self.todos, &Tally::All)
    }

    /// Number of tasks not done, subtasks included.
    pub fn pending_count(&self) -> (r: usize)
        requires
            count_forest(self.tasks(), pending_task()) <= usize::MAX,
        ensures
            r == count_forest(self.tasks(), pending_task()),
    {
        tally_forest(&self.todos, &Tally::Pending)
    }

    /// Number of tasks done, subtasks included.
    pub fn done_count(&self) -> (r: usize)
        requires
            count_forest(self.tasks(), done_task()) <= usize::MAX,
        ensures
            r == count_forest(self.tasks(), done_task()),
    {
        tally_forest(&self.todos, &Tally::Done)
    }

    /// Number of pinned tasks not done, subtasks included.
    pub fn pinned_count(&self) -> (r: usize)
        requires
            count_forest(self.tasks(), pinned_pending_task()) <= usize::MAX,
        ensures
            r == count_forest(self.tasks(), pinned_pending_task()),
    {
        tally_forest(&self.todos, &Tally::PinnedPending)
    }

    /// (total, done, pending, pinned) counts of the task list.
    pub fn get_stats(&self) -> (r: (usize, usize, usize, usize))
        requires
            count_forest(self.tasks(), any_task()) <= usize::MAX,
        ensures
            r.0 == count_forest(self.tasks(), any_task()),
            r.1 == count_forest(self.tasks(), done_task()),
            r.2 == count_forest(self.tasks(), pending_task()),
            r.3 == count_forest(self.tasks(), pinned_pending_task()),
    {
        proof {
            law_stats(self.tasks());
        }
        let total = self.total_count();
        let done = self.done_count();
        let pending = self.pending_count();
        let pinned = self.pinned_count();
        (total, done, pending, pinned)
    }

    /// The first task, in depth-first order, with the given id.
    pub fn get_todo(&self, id: u64) -> (r: Option<&Todo>)
        ensures
            match r {
                Some(x) => find_forest(self.tasks(), id) == Some(x@),
                None => find_forest(self.tasks(), id) is None,
            },
    {
        find_in_forest(&self.todos, id)
    }

    /// The first task, in depth-first order, with the given id, to change
    /// in place: what it becomes is what the list holds there.
    pub fn find_mut(&mut self, id: u64) -> (r: Option<&mut Todo>)
        ensures
            r is Some <==> find_forest(old(self).tasks(), id) is Some,
            r is None ==> final(self).tasks() == old(self).tasks(),
            r is Some ==> find_forest(old(self).tasks(), id) == Some(r->0@),
            r is Some ==> final(self).tasks() == update_forest(old(self).tasks(), id, replaced_by(final(r->0)@)),
            same_settings(*final(self), *old(self)),
            final(self).dirty_tags == old(self).dirty_tags,
    {
        match first_holding(&self.todos, id) {
            None => None,
            Some(i) => {
                let ghost fv = self.tasks();
                proof {
                    lemma_forest_view(self.todos@);
                    lemma_first_hit(fv, i as int, id, |t: TaskView| t);
                }
                let t = &mut self.todos[i];
                proof {
                    lemma_forest_view_update(old(self).todos@, i as int, *final(t));
                }
                let r = t.find_mut(id);
                proof {
                    lemma_first_hit(fv, i as int, id, replaced_by(final(r->0)@));
                }
                r
            },
        }
    }

    /// Puts every level of the task list in display order as of `now`.
    pub fn sort_all_at(&mut self, now: u64)
        ensures
            final(self).tasks() == sorted_forest(old(self).tasks(), now),
            same_settings(*final(self), *old(self)),
            final(self).dirty_tags == old(self).dirty_tags,
    {
        let mut v: Vec<Todo> = Vec::new();
        std::mem::swap(&mut v, &mut self.todos);
        self.todos = sort_forest(v, now);
    }

    /// Puts every level of the task list in display order as of now.
    pub fn sort_all(&mut self)
        ensures
            (exists|now: u64| final(self).tasks() == #[trigger] sorted_forest(old(self).tasks(), now)),
            same_settings(*final(self), *old(self)),
            final(self).dirty_tags == old(self).dirty_tags,
    {
        let now = now_secs();
        self.sort_all_at(now);
    }

    /// Applies the edit to the first task with the id, then sorts as of
    /// `now`; false, and nothing changed, when no task has the id.
    pub fn apply_and_sort(&mut self, id: u64, e: Edit, now: u64) -> (found: bool)
        ensures
            found == find_forest(old(self).tasks(), id) is Some,
            found ==> final(self).tasks() == sorted_forest(update_forest(old(self).tasks(), id, edit_fn(e)), now),
            !found ==> final(self).tasks() == old(self).tasks(),
            same_settings(*final(self), *old(self)),
            final(self).dirty_tags == old(self).dirty_tags,
    {
        let ghost ghost_e = e;
        let found = apply_edit_forest(&mut self.todos, id, e);
        if !found {
            proof {
                lemma_update_miss(old(self).tasks(), id, edit_fn(ghost_e));
            }
        }
        if found {
            self.sort_all_at(now);
        }
        found
    }

    /// Pins the first task with the id and sorts.
    pub fn pin_task(&mut self, id: u64) -> (r: Result<(), StorageError>)
        ensures
            r is Ok <==> find_forest(old(self).tasks(), id) is Some,
            r is Err ==> r == Err::<(), StorageError>(StorageError::TaskNotFound) && final(self).tasks() == old(self).tasks(),
            r is Ok ==> (exists|now: u64| final(self).tasks() == #[trigger] sorted_forest(update_forest(old(self).tasks(), id, pinned_to(true)), now)),
            same_settings(*final(self), *old(self)),
            final(self).dirty_tags == old(self).dirty_tags,
    {
        let now = now_secs();
        if self.apply_and_sort(id, Edit::SetPinned(true), now) {
            Ok(())
        } else {
            Err(StorageError::TaskNotFound)
        }
    }

    /// Unpins the first task with the id and sorts.
    pub fn unpin_task(&mut self, id: u64) -> (r: Result<(), StorageError>)
        ensures
            r is Ok <==> find_forest(old(self).tasks(), id) is Some,
            r is Err ==> r == Err::<(), StorageError>(StorageError::TaskNotFound) && final(self).tasks() == old(self).tasks(),
            r is Ok ==> (exists|now: u64| final(self).tasks() == #[trigger] sorted_forest(update_forest(old(self).tasks(), id, pinned_to(false)), now)),
            same_settings(*final(self), *old(self)),
            final(self).dirty_tags == old(self).dirty_tags,
    {
        let now = now_secs();
        if self.apply_and_sort(id, Edit::SetPinned(false), now) {
            Ok(())
        } else {
            Err(StorageError::TaskNotFound)
        }
    }

    /// Pins the first task with the id when it is not pinned, unpins it when
    /// it is, and sorts; gives whether the task is pinned now.
    pub fn toggle_pin(&mut self, id: u64) -> (r: Result<bool, StorageError>)
        ensures
            r is Ok <==> find_forest(old(self).tasks(), id) is Some,
            r is Err ==> r == Err::<bool, StorageError>(StorageError::TaskNotFound) && final(self).tasks() == old(self).tasks(),
            r matches Ok(b) ==> b == !(find_forest(old(self).tasks(), id)->Some_0).pinned && (exists|now: u64|
                final(self).tasks() == #[trigger] sorted_forest(update_forest(old(self).tasks(), id, pinned_to(b)), now)),
            same_settings(*final(self), *old(self)),
            final(self).dirty_tags == old(self).dirty_tags,
    {
        let pinned = match find_in_forest(&self.todos, id) {
            None => {
                return Err(StorageError::TaskNotFound);
            },
            Some(t) => t.pinned,
        };
        let now = now_secs();
        let ghost e = Edit::SetPinned(!pinned);
        self.apply_and_sort(id, Edit::SetPinned(!pinned), now);
        proof {
            assert(edit_fn(e) == pinned_to(!pinned));
            assert(self.tasks() == sorted_forest(update_forest(old(self).tasks(), id, pinned_to(!pinned)), now));
            assert(pinned == (find_forest(old(self).tasks(), id)->Some_0).pinned);
            assert(find_forest(old(self).tasks(), id) is Some);
        }
        Ok(!pinned)
    }

    /// Whether one more task may be added under a limit of `max_todos` tasks.
    pub fn has_room(&self, max_todos: usize) -> (r: bool)
        requires
            count_forest(self.tasks(), any_task()) <= usize::MAX,
        ensures
            r == (count_forest(self.tasks(), any_task()) < max_todos),
    {
        self.total_count() < max_todos
    }

    /// Removes every task and closes every task; the tag list is to be
    /// rebuilt.
    pub fn delete_all(&mut self)
        ensures
            final(self).tasks() == Seq::<TaskView>::empty(),
            final(self).expanded@ == Set::<u64>::empty(),
            final(self).dirty_tags,
            final(self).search == old(self).search,
            final(self).filter_tag == old(self).filter_tag,
            final(self).tags_available == old(self).tags_available,
            final(self).projects_dir == old(self).projects_dir,
            final(self).current_project == old(self).current_project,
    {
        self.todos = Vec::new();
        self.expanded = HashSet::new();
        self.dirty_tags = true;
        proof {
            assert(forest_view(self.todos@) =~= Seq::<TaskView>::empty());
        }
    }

    /// Clears the search and the tag filter; the tasks stay as they are.
    pub fn clear_filters(&mut self)
        ensures
            final(self).search@.len() == 0,
            final(self).filter_tag@.len() == 0,
            final(self).tasks() == old(self).tasks(),
            final(self).tags_available == old(self).tags_available,
            final(self).dirty_tags == old(self).dirty_tags,
            final(self).projects_dir == old(self).projects_dir,
            final(self).current_project == old(self).current_project,
            final(self).expanded@ == old(self).expanded@,
    {
        self.search = String::new();
        self.filter_tag = String::new();
    }

    /// Sets the due time of the first task with the id (0 clears it) and sorts.
    pub fn set_due_date(&mut self, id: u64, due: u64) -> (r: Result<(), StorageError>)
        ensures
            r is Ok <==> find_forest(old(self).tasks(), id) is Some,
            r is Err ==> r == Err::<(), StorageError>(StorageError::TaskNotFound) && final(self).tasks() == old(self).tasks(),
            r is Ok ==> (exists|now: u64| final(self).tasks() == #[trigger] sorted_forest(update_forest(old(self).tasks(), id, due_to(due)), now)),
            same_settings(*final(self), *old(self)),
            final(self).dirty_tags == old(self).dirty_tags,
    {
        let now = now_secs();
        if self.apply_and_sort(id, Edit::SetDueDate(due), now) {
            Ok(())
        } else {
            Err(StorageError::TaskNotFound)
        }
    }

    /// Sets the tag of the first task with the id; the order is left as it is.
    pub fn set_tag(&mut self, id: u64, tag: &str) -> (r: Result<(), StorageError>)
        ensures
            r is Ok <==> find_forest(old(self).tasks(), id) is Some,
            r is Err ==> r == Err::<(), StorageError>(StorageError::TaskNotFound) && final(self).tasks() == old(self).tasks()
                && final(self).dirty_tags == old(self).dirty_tags,
            r is Ok ==> final(self).tasks() == update_forest(old(self).tasks(), id, tagged_as(tag@)),
            r is Ok ==> final(self).dirty_tags,
            same_settings(*final(self), *old(self)),
    {
        let t = String::from_str(tag);
        let ghost e = Edit::SetTag(t);
        if apply_edit_forest(&mut self.todos, id, Edit::SetTag(t)) {
            self.dirty_tags = true;
            Ok(())
        } else {
            proof {
                lemma_update_miss(old(self).tasks(), id, edit_fn(e));
            }
            Err(StorageError::TaskNotFound)
        }
    }
}

/// Law: every task is either done or pending, and a pinned task that
/// counts as pinned is pending.
pub proof fn law_stats(s: Seq<TaskView>)
    ensures
        count_forest(s, any_task()) == count_forest(s, done_task()) + count_forest(s, pending_task()),
        count_forest(s, pinned_pending_task()) <= count_forest(s, pending_task()),
        count_forest(s, done_task()) <= count_forest(s, any_task()),
{
    lemma_count_split(s, any_task(), done_task(), pending_task());
    lemma_count_mono(s, pending_task(), pinned_pending_task());
}

/// The task list after toggling the first task with the id as of `now`: it
/// and every task below it become done (at `now`) when it was pending, and
/// pending (with no completion time) when it was done; then every level is
/// sorted. Unchanged when no task has the id.
pub open spec fn toggled(s: Seq<TaskView>, id: u64, now: u64) -> Seq<TaskView> {
    match find_forest(s, id) {
        Some(f) => sorted_forest(update_forest(s, id, marked(!f.done, if !f.done { now } else { 0 })), now),
        None => s,
    }
}

/// Tasks with the id that are done.
pub open spec fn id_done(id: u64) -> spec_fn(TaskView) -> bool {
    |t: TaskView| t.id == id && t.done
}

/// A task given an id other than its own, with nothing below it.
pub open spec fn renamed_away() -> spec_fn(TaskView) -> TaskView {
    |t: TaskView| TaskView { id: (if t.id == 0 { 1u64 } else { 0u64 }), children: Seq::empty(), ..t }
}

/// Replacing the first task with the id changes a count by what the
/// replacement counts less what the replaced tree counted.
pub proof fn lemma_update_count(
    s: Seq<TaskView>,
    id: u64,
    f: spec_fn(TaskView) -> TaskView,
    p: spec_fn(TaskView) -> bool,
)
    requires
        find_forest(s, id) is Some,
    ensures
        count_forest(update_forest(s, id, f), p) == count_forest(s, p) - count_tree(find_forest(s, id)->Some_0, p)
            + count_tree(f(find_forest(s, id)->Some_0), p),
    decreases s,
{
    let a = s.drop_last();
    let t = s.last();
    let u = update_forest(s, id, f);
    assert(count_forest(s, p) == count_forest(a, p) + count_tree(t, p));
    if find_forest(a, id) is Some {
        lemma_update_count(a, id, f, p);
        assert(find_forest(s, id) == find_forest(a, id));
        assert(u == update_forest(a, id, f).push(t));
        assert(u.drop_last() =~= update_forest(a, id, f));
        assert(count_forest(u, p) == count_forest(u.drop_last(), p) + count_tree(u.last(), p));
    } else {
        assert(find_forest(s, id) == find_tree(t, id));
        assert(u == a.push(update_tree(t, id, f)));
        assert(u.drop_last() =~= a);
        assert(count_forest(u, p) == count_forest(u.drop_last(), p) + count_tree(u.last(), p));
        if t.id != id {
            assert(find_tree(t, id) == find_forest(t.children, id));
            lemma_update_count(t.children, id, f, p);
            let v = update_tree(t, id, f);
            assert(v.children == update_forest(t.children, id, f));
            assert(strip(v) == strip(t));
            assert(count_tree(v, p) == (if p(strip(v)) { 1nat } else { 0nat }) + count_forest(v.children, p));
        }
    }
}

/// The search finds a task with the id exactly when some task has it, and
/// what it finds has the id.
pub proof fn lemma_find_count(s: Seq<TaskView>, id: u64)
    ensures
        find_forest(s, id) is Some <==> count_forest(s, id_is(id)) > 0,
        find_forest(s, id) is Some ==> (find_forest(s, id)->Some_0).id == id,
    decreases s,
{
    if s.len() > 0 {
        let t = s.last();
        lemma_find_count(s.drop_last(), id);
        lemma_find_count(t.children, id);
        assert(id_is(id)(strip(t)) == (t.id == id));
        assert(count_forest(s, id_is(id)) == count_forest(s.drop_last(), id_is(id)) + count_tree(t, id_is(id)));
        assert(count_tree(t, id_is(id)) == (if id_is(id)(strip(t)) { 1nat } else { 0nat }) + count_forest(t.children, id_is(id)));
        assert(find_tree(t, id) == (if t.id == id { Some(t) } else { find_forest(t.children, id) }));
    }
}

/// Marking a list keeps its ids; the done tasks with an id are then all
/// the tasks with it, or none.
pub proof fn lemma_mark_count(s: Seq<TaskView>, d: bool, at: u64, id: u64)
    ensures
        count_forest(mark_forest(s, d, at), id_is(id)) == count_forest(s, id_is(id)),
        count_forest(mark_forest(s, d, at), id_done(id)) == (if d { count_forest(s, id_is(id)) } else { 0 }),
        count_forest(mark_forest(s, d, at), any_task()) == count_forest(s, any_task()),
    decreases s,
{
    if s.len() > 0 {
        let t = s.last();
        lemma_mark_count(s.drop_last(), d, at, id);
        lemma_mark_count(t.children, d, at, id);
        let m = mark_forest(s, d, at);
        let mt = mark_tree(t, d, at);
        assert(m == mark_forest(s.drop_last(), d, at).push(mt));
        assert(m.drop_last() =~= mark_forest(s.drop_last(), d, at));
        assert(m.last() == mt);
        assert(mt.children == mark_forest(t.children, d, at));
        let x = strip(mt);
        assert(x.id == t.id && x.done == d);
        assert(id_is(id)(x) == id_is(id)(strip(t)));
        assert(id_done(id)(x) == (d && id_is(id)(strip(t))));
        assert(any_task()(x) && any_task()(strip(t)));
        assert(count_tree(mt, id_is(id)) == (if id_is(id)(x) { 1nat } else { 0nat }) + count_forest(mt.children, id_is(id)));
        assert(count_tree(mt, id_done(id)) == (if id_done(id)(x) { 1nat } else { 0nat }) + count_forest(mt.children, id_done(id)));
        assert(count_tree(mt, any_task()) == 1 + count_forest(mt.children, any_task()));
        assert(count_tree(t, id_is(id)) == (if id_is(id)(strip(t)) { 1nat } else { 0nat }) + count_forest(t.children, id_is(id)));
        assert(count_tree(t, any_task()) == 1 + count_forest(t.children, any_task()));
    }
}

/// When exactly one task has the id, the search finds it, its tree holds
/// no other task with the id, and it is done exactly when one task with
/// the id is done.
pub proof fn lemma_single(s: Seq<TaskView>, id: u64)
    requires
        count_forest(s, id_is(id)) == 1,
    ensures
        find_forest(s, id) is Some,
        count_tree(find_forest(s, id)->Some_0, id_is(id)) == 1,
        count_forest(s, id_done(id)) == (if (find_forest(s, id)->Some_0).done { 1int } else { 0int }),
{
    lemma_find_count(s, id);
    let x = find_forest(s, id)->Some_0;
    assert(x.id == id);
    assert(strip(x).id == id);
    let g = renamed_away();
    lemma_update_count(s, id, g, id_is(id));
    lemma_update_count(s, id, g, id_done(id));
    let y = g(x);
    assert(!id_is(id)(strip(y)));
    assert(!id_done(id)(strip(y)));
    assert(count_forest(y.children, id_is(id)) == 0);
    assert(count_forest(y.children, id_done(id)) == 0);
    assert(id_is(id)(strip(x)));
    assert(count_tree(x, id_is(id)) >= 1);
    let u = update_forest(s, id, g);
    lemma_count_mono(u, id_is(id), id_done(id));
    lemma_count_mono(x.children, id_is(id), id_done(id));
    assert(id_done(id)(strip(x)) == x.done);
}

/// When exactly one task has the id, a property that only tasks with the
/// id can have is counted once when that task has it, else not at all.
pub proof fn lemma_single_pred(s: Seq<TaskView>, id: u64, q: spec_fn(TaskView) -> bool)
    requires
        count_forest(s, id_is(id)) == 1,
        forall|t: TaskView| #[trigger] q(t) ==> t.id == id,
    ensures
        find_forest(s, id) is Some,
        count_forest(s, q) == (if q(strip(find_forest(s, id)->Some_0)) { 1int } else { 0int }),
{
    lemma_single(s, id);
    lemma_find_count(s, id);
    let x = find_forest(s, id)->Some_0;
    assert(strip(x).id == id);
    assert(forall|t: TaskView| #[trigger] q(t) ==> id_is(id)(t));
    let g = renamed_away();
    lemma_update_count(s, id, g, id_is(id));
    lemma_update_count(s, id, g, q);
    let y = g(x);
    assert(!id_is(id)(strip(y)));
    assert(!q(strip(y)));
    assert(count_forest(y.children, q) == 0);
    assert(count_forest(y.children, id_is(id)) == 0);
    let u = update_forest(s, id, g);
    lemma_count_mono(u, id_is(id), q);
    lemma_count_mono(x.children, id_is(id), q);
}

/// Tasks equal, but for their subtasks, to the given one.
pub open spec fn same_as(v: TaskView) -> spec_fn(TaskView) -> bool {
    |t: TaskView| t == v
}

/// Law: when exactly one task has the id and it is not pinned, pinning it
/// and then unpinning it, sorting each time, gives back the same tasks: for
/// every property of a task's own fields, as many tasks have it as before.
/// Only the order of siblings may differ.
pub proof fn law_pin_unpin(s: Seq<TaskView>, id: u64, p: spec_fn(TaskView) -> bool, first: u64, second: u64)
    requires
        count_forest(s, id_is(id)) == 1,
        !(find_forest(s, id)->Some_0).pinned,
    ensures
        ({
            let s1 = sorted_forest(update_forest(s, id, pinned_to(true)), first);
            let s2 = sorted_forest(update_forest(s1, id, pinned_to(false)), second);
            &&& count_forest(s2, p) == count_forest(s, p)
            &&& count_forest(s2, id_is(id)) == 1
            &&& find_forest(s2, id) is Some
            &&& strip(find_forest(s2, id)->Some_0) == strip(find_forest(s, id)->Some_0)
        }),
{
    lemma_single(s, id);
    lemma_find_count(s, id);
    let x = find_forest(s, id)->Some_0;
    let x1 = pinned_to(true)(x);
    let v1 = strip(x1);
    let u1 = update_forest(s, id, pinned_to(true));
    let s1 = sorted_forest(u1, first);
    assert(x1.children == x.children);
    lemma_update_count(s, id, pinned_to(true), p);
    lemma_update_count(s, id, pinned_to(true), id_is(id));
    lemma_update_count(s, id, pinned_to(true), same_as(v1));
    lemma_update_count(s, id, renamed_away(), same_as(v1));
    assert(!same_as(v1)(strip(renamed_away()(x))));
    assert(count_tree(renamed_away()(x), same_as(v1)) == 0);
    assert(same_as(v1)(strip(x1)));
    assert(count_tree(x1, same_as(v1)) >= 1);
    assert(strip(x1).id == x.id && strip(x).id == x.id);
    assert(id_is(id)(strip(x1)) == id_is(id)(strip(x)));
    assert(count_tree(x1, id_is(id)) == count_tree(x, id_is(id)));
    law_sort_keeps_tasks(u1, p, first);
    law_sort_keeps_tasks(u1, id_is(id), first);
    law_sort_keeps_tasks(u1, same_as(v1), first);
    assert(count_forest(s1, id_is(id)) == 1);
    assert(count_forest(s1, same_as(v1)) >= 1);
    assert(forall|t: TaskView| #[trigger] same_as(v1)(t) ==> t.id == id);
    lemma_single_pred(s1, id, same_as(v1));
    lemma_single(s1, id);
    let y = find_forest(s1, id)->Some_0;
    assert(strip(y) == v1);
    let y2 = pinned_to(false)(y);
    assert(y2.children == y.children);
    assert(strip(y2) == strip(x));
    let u2 = update_forest(s1, id, pinned_to(false));
    let s2 = sorted_forest(u2, second);
    lemma_update_count(s1, id, pinned_to(false), p);
    lemma_update_count(s1, id, pinned_to(false), id_is(id));
    assert(id_is(id)(strip(y2)) == id_is(id)(strip(y)));
    assert(count_tree(y2, id_is(id)) == count_tree(y, id_is(id)));
    law_sort_keeps_tasks(u2, p, second);
    law_sort_keeps_tasks(u2, id_is(id), second);
    assert(count_forest(s2, id_is(id)) == 1);
    let v = strip(x);
    lemma_update_count(s1, id, pinned_to(false), same_as(v));
    lemma_update_count(s1, id, renamed_away(), same_as(v));
    assert(!same_as(v)(strip(renamed_away()(y))));
    assert(count_tree(renamed_away()(y), same_as(v)) == 0);
    assert(same_as(v)(strip(y2)));
    law_sort_keeps_tasks(u2, same_as(v), second);
    assert(forall|t: TaskView| #[trigger] same_as(v)(t) ==> t.id == id);
    lemma_single_pred(s2, id, same_as(v));
}

/// Law: when exactly one task has the id, toggling it keeps it the only
/// task with the id and the number of tasks as it was, and flips whether
/// that task is done.
pub proof fn law_toggle_flips(s: Seq<TaskView>, id: u64, now: u64)
    requires
        count_forest(s, id_is(id)) == 1,
    ensures
        count_forest(toggled(s, id, now), id_is(id)) == 1,
        count_forest(toggled(s, id, now), any_task()) == count_forest(s, any_task()),
        find_forest(s, id) is Some,
        find_forest(toggled(s, id, now), id) is Some,
        (find_forest(toggled(s, id, now), id)->Some_0).done == !(find_forest(s, id)->Some_0).done,
{
    lemma_single(s, id);
    lemma_find_count(s, id);
    let x = find_forest(s, id)->Some_0;
    assert(strip(x).id == id);
    lemma_count_mono(x.children, id_is(id), id_done(id));
    assert(count_tree(x, id_done(id)) == (if x.done { 1int } else { 0int }));
    let d = !x.done;
    let at: u64 = if d { now } else { 0 };
    let u = update_forest(s, id, marked(d, at));
    let r = toggled(s, id, now);
    assert(r == sorted_forest(u, now));
    let m = marked(d, at)(x);
    assert(m == mark_tree(x, d, at));
    lemma_mark_count(x.children, d, at, id);
    assert(strip(m).id == x.id && strip(m).done == d);
    assert(id_is(id)(strip(x)));
    assert(count_tree(m, id_is(id)) == count_tree(x, id_is(id)));
    assert(count_tree(m, id_done(id)) == (if d { 1int } else { 0int }));
    assert(count_tree(m, any_task()) == count_tree(x, any_task()));
    lemma_update_count(s, id, marked(d, at), id_is(id));
    lemma_update_count(s, id, marked(d, at), id_done(id));
    lemma_update_count(s, id, marked(d, at), any_task());
    law_sort_keeps_tasks(u, id_is(id), now);
    law_sort_keeps_tasks(u, id_done(id), now);
    law_sort_keeps_tasks(u, any_task(), now);
    lemma_single(r, id);
}

/// Law: when exactly one task has the id, toggling it twice gives it back
/// the done state it had, and the list keeps its number of tasks.
pub proof fn law_toggle_twice(s: Seq<TaskView>, id: u64, first: u64, second: u64)
    requires
        count_forest(s, id_is(id)) == 1,
    ensures
        find_forest(toggled(toggled(s, id, first), id, second), id) is Some,
        (find_forest(toggled(toggled(s, id, first), id, second), id)->Some_0).done == (find_forest(s, id)->Some_0).done,
        count_forest(toggled(toggled(s, id, first), id, second), any_task()) == count_forest(s, any_task()),
{
    law_toggle_flips(s, id, first);
    law_toggle_flips(toggled(s, id, first), id, second);
}

/// The task list after adding a subtask under the first task with id `pid`;
/// the subtask takes the parent's tag when the parent has one.
pub open spec fn with_subtask(
    s: Seq<TaskView>,
    pid: u64,
    text: Seq<char>,
    tag: Seq<char>,
    id: u64,
    created_at: u64,
) -> Seq<TaskView> {
    let p = find_forest(s, pid)->Some_0;
    let subtag = if p.tag.len() > 0 { p.tag } else { tag };
    update_forest(s, pid, with_child(fresh_subtask(text, subtag, pid, (p.depth + 1) as usize, id, created_at)))
}

/// Law: adding a subtask under a task that the list holds adds exactly one
/// pending task and leaves the number of done tasks as it was.
pub proof fn law_add_subtask_counts(
    s: Seq<TaskView>,
    pid: u64,
    text: Seq<char>,
    tag: Seq<char>,
    id: u64,
    created_at: u64,
    now: u64,
)
    requires
        find_forest(s, pid) is Some,
    ensures
        ({
            let r = sorted_forest(with_subtask(s, pid, text, tag, id, created_at), now);
            &&& count_forest(r, any_task()) == count_forest(s, any_task()) + 1
            &&& count_forest(r, pending_task()) == count_forest(s, pending_task()) + 1
            &&& count_forest(r, done_task()) == count_forest(s, done_task())
        }),
{
    let x = find_forest(s, pid)->Some_0;
    let subtag = if x.tag.len() > 0 { x.tag } else { tag };
    let c = fresh_subtask(text, subtag, pid, (x.depth + 1) as usize, id, created_at);
    let f = with_child(c);
    let u = update_forest(s, pid, f);
    assert(with_subtask(s, pid, text, tag, id, created_at) == u);
    let y = f(x);
    assert(y.children == x.children.push(c));
    assert(y.children.drop_last() =~= x.children);
    assert(strip(y) == strip(x));
    assert(c.children.len() == 0);
    assert(!strip(c).done);
    assert(any_task()(strip(c)) && pending_task()(strip(c)) && !done_task()(strip(c)));
    assert(count_tree(c, any_task()) == 1);
    assert(count_tree(c, pending_task()) == 1);
    assert(count_tree(c, done_task()) == 0);
    lemma_update_count(s, pid, f, any_task());
    lemma_update_count(s, pid, f, pending_task());
    lemma_update_count(s, pid, f, done_task());
    law_sort_keeps_tasks(u, any_task(), now);
    law_sort_keeps_tasks(u, pending_task(), now);
    law_sort_keeps_tasks(u, done_task(), now);
}

/// Law: pinning, unpinning, setting a due date, a tag or a text, then
/// sorting, keeps the number of tasks, of done tasks and of pending tasks.
pub proof fn law_edit_keeps_counts(s: Seq<TaskView>, id: u64, e: Edit, now: u64)
    requires
        !(e is MarkDone),
        !(e is AddChild),
    ensures
        ({
            let r = sorted_forest(update_forest(s, id, edit_fn(e)), now);
            &&& count_forest(r, any_task()) == count_forest(s, any_task())
            &&& count_forest(r, pending_task()) == count_forest(s, pending_task())
            &&& count_forest(r, done_task()) == count_forest(s, done_task())
        }),
{
    let f = edit_fn(e);
    let u = update_forest(s, id, f);
    if find_forest(s, id) is Some {
        let x = find_forest(s, id)->Some_0;
        let y = f(x);
        assert(y.children == x.children && y.done == x.done);
        assert(strip(y).done == strip(x).done);
        assert(count_tree(y, any_task()) == count_tree(x, any_task()));
        assert(count_tree(y, pending_task()) == count_tree(x, pending_task()));
        assert(count_tree(y, done_task()) == count_tree(x, done_task()));
        lemma_update_count(s, id, f, any_task());
        lemma_update_count(s, id, f, pending_task());
        lemma_update_count(s, id, f, done_task());
    } else {
        lemma_update_miss(s, id, f);
    }
    law_sort_keeps_tasks(u, any_task(), now);
    law_sort_keeps_tasks(u, pending_task(), now);
    law_sort_keeps_tasks(u, done_task(), now);
}

impl Storage {
    /// Toggles the first task with the id as of `now` (see `toggled`).
    pub fn toggle_task_at(&mut self, id: u64, now: u64) -> (r: Result<(), StorageError>)
        ensures
            r is Ok <==> find_forest(old(self).tasks(), id) is Some,
            r is Err ==> r == Err::<(), StorageError>(StorageError::TaskNotFound)
                && final(self).dirty_tags == old(self).dirty_tags,
            r is Ok ==> final(self).dirty_tags,
            final(self).tasks() == toggled(old(self).tasks(), id, now),
            same_settings(*final(self), *old(self)),
    {
        let new_done = match find_in_forest(&self.todos, id) {
            None => {
                return Err(StorageError::TaskNotFound);
            },
            Some(t) => !t.done,
        };
        let done_at = if new_done { now } else { 0 };
        self.apply_and_sort(id, Edit::MarkDone(new_done, done_at), now);
        self.dirty_tags = true;
        Ok(())
    }

    /// Toggles the first task with the id as of now (see `toggled`).
    pub fn toggle_task(&mut self, id: u64) -> (r: Result<(), StorageError>)
        ensures
            r is Ok <==> find_forest(old(self).tasks(), id) is Some,
            r is Err ==> r == Err::<(), StorageError>(StorageError::TaskNotFound)
                && final(self).dirty_tags == old(self).dirty_tags && final(self).tasks() == old(self).tasks(),
            r is Ok ==> final(self).dirty_tags,
            r is Ok ==> (exists|now: u64| final(self).tasks() == #[trigger] toggled(old(self).tasks(), id, now)),
            same_settings(*final(self), *old(self)),
    {
        let now = now_secs();
        self.toggle_task_at(id, now)
    }

    /// Adds a new top-level task with the given id and creation time, then
    /// sorts as of `now`.
    pub fn add_task_at(&mut self, text: &str, tag: &str, id: u64, created_at: u64, now: u64)
        ensures
            final(self).tasks() == sorted_forest(old(self).tasks().push(fresh_task(text@, tag@, id, created_at)), now),
            final(self).dirty_tags,
            same_settings(*final(self), *old(self)),
    {
        let todo = Todo::with_id(text, tag, id, created_at);
        self.todos.push(todo);
        proof {
            assert(self.todos@.drop_last() =~= old(self).todos@);
        }
        self.sort_all_at(now);
        self.dirty_tags = true;
    }

    /// Adds a new top-level task with a fresh id, created now, then sorts.
    pub fn add_task(&mut self, text: &str, tag: &str) -> (r: Result<(), StorageError>)
        ensures
            r is Ok,
            (exists|id: u64, created_at: u64, now: u64| final(self).tasks() == #[trigger] sorted_forest(
                old(self).tasks().push(fresh_task(text@, tag@, id, created_at)),
                now,
            )),
            final(self).dirty_tags,
            same_settings(*final(self), *old(self)),
    {
        let id = generate_id();
        let created_at = now_secs();
        let now = now_secs();
        self.add_task_at(text, tag, id, created_at, now);
        Ok(())
    }

    /// Adds a subtask under the first task with id `parent_id` (see
    /// `with_subtask`), unless that task sits at depth `max_depth` or deeper,
    /// then sorts as of `now`.
    pub fn add_subtask_at(
        &mut self,
        parent_id: u64,
        text: &str,
        tag: &str,
        max_depth: usize,
        id: u64,
        created_at: u64,
        now: u64,
    ) -> (r: Result<(), StorageError>)
        ensures
            (r == Err::<(), StorageError>(StorageError::ParentNotFound)) <==> find_forest(old(self).tasks(), parent_id) is None,
            (r == Err::<(), StorageError>(StorageError::MaxDepthReached)) <==> (find_forest(old(self).tasks(), parent_id) matches Some(p)
                && p.depth >= max_depth),
            r is Ok ==> final(self).tasks() == sorted_forest(with_subtask(old(self).tasks(), parent_id, text@, tag@, id, created_at), now)
                && final(self).dirty_tags,
            r is Err ==> final(self).tasks() == old(self).tasks() && final(self).dirty_tags == old(self).dirty_tags,
            same_settings(*final(self), *old(self)),
    {
        let (depth, parent_tag) = match find_in_forest(&self.todos, parent_id) {
            None => {
                return Err(StorageError::ParentNotFound);
            },
            Some(p) => (p.depth, p.tag.clone()),
        };
        if depth >= max_depth {
            return Err(StorageError::MaxDepthReached);
        }
        let subtag = if !parent_tag.as_str().is_empty() {
            parent_tag
        } else {
            String::from_str(tag)
        };
        let subtask = Todo::subtask_with_id(text, subtag.as_str(), parent_id, depth, id, created_at);
        self.apply_and_sort(parent_id, Edit::AddChild(subtask), now);
        self.dirty_tags = true;
        Ok(())
    }

    /// Adds a subtask with a fresh id, created now, under the first task with
    /// id `parent_id` (see `add_subtask_at`).
    pub fn add_subtask(&mut self, parent_id: u64, text: &str, tag: &str, max_depth: usize) -> (r: Result<(), StorageError>)
        ensures
            (r == Err::<(), StorageError>(StorageError::ParentNotFound)) <==> find_forest(old(self).tasks(), parent_id) is None,
            (r == Err::<(), StorageError>(StorageError::MaxDepthReached)) <==> (find_forest(old(self).tasks(), parent_id) matches Some(p)
                && p.depth >= max_depth),
            r is Ok ==> (exists|id: u64, created_at: u64, now: u64| final(self).tasks() == #[trigger] sorted_forest(
                with_subtask(old(self).tasks(), parent_id, text@, tag@, id, created_at),
                now,
            )) && final(self).dirty_tags,
            r is Err ==> final(self).tasks() == old(self).tasks() && final(self).dirty_tags == old(self).dirty_tags,
            same_settings(*final(self), *old(self)),
    {
        let id = generate_id();
        let created_at = now_secs();
        let now = now_secs();
        self.add_subtask_at(parent_id, text, tag, max_depth, id, created_at, now)
    }

    /// Replaces the text of the first task with the id; the order is left as it is.
    pub fn set_text(&mut self, id: u64, text: &str) -> (found: bool)
        ensures
            found == find_forest(old(self).tasks(), id) is Some,
            final(self).tasks() == update_forest(old(self).tasks(), id, worded_as(text@)),
            final(self).dirty_tags == old(self).dirty_tags,
            same_settings(*final(self), *old(self)),
    {
        apply_edit_forest(&mut self.todos, id, Edit::SetText(String::from_str(text)))
    }

    /// Opens the subtasks of the task with the id when closed, and closes them when open.
    pub fn toggle_expand(&mut self, id: u64)
        ensures
            final(self).expanded@ == (if old(self).expanded@.contains(id) {
                old(self).expanded@.remove(id)
            } else {
                old(self).expanded@.insert(id)
            }),
            final(self).tasks() == old(self).tasks(),
            final(self).search == old(self).search,
            final(self).filter_tag == old(self).filter_tag,
            final(self).tags_available == old(self).tags_available,
            final(self).dirty_tags == old(self).dirty_tags,
            final(self).projects_dir == old(self).projects_dir,
            final(self).current_project == old(self).current_project,
    {
        if self.expanded.contains(&id) {
            self.expanded.remove(&id);
        } else {
            self.expanded.insert(id);
        }
    }

    /// Whether the subtasks of the task with the id are shown.
    pub fn is_expanded(&self, id: u64) -> (r: bool)
        ensures
            r == self.expanded@.contains(id),
    {
        self.expanded.contains(&id)
    }
}

/// Law: opening or closing the subtasks of a task twice leaves the set of
/// open tasks as it was.
pub proof fn law_toggle_expand_twice(e: Set<u64>, id: u64)
    ensures
        ({
            let once = if e.contains(id) { e.remove(id) } else { e.insert(id) };
            let twice = if once.contains(id) { once.remove(id) } else { once.insert(id) };
            twice == e
        }),
{
    let once = if e.contains(id) { e.remove(id) } else { e.insert(id) };
    let twice = if once.contains(id) { once.remove(id) } else { once.insert(id) };
    assert(twice =~= e);
}

/// Law: adding a task adds exactly one pending task and leaves the number
/// of done tasks as it was.
pub proof fn law_add_task_counts(s: Seq<TaskView>, text: Seq<char>, tag: Seq<char>, id: u64, created_at: u64, now: u64)
    ensures
        ({
            let r = sorted_forest(s.push(fresh_task(text, tag, id, created_at)), now);
            &&& count_forest(r, any_task()) == count_forest(s, any_task()) + 1
            &&& count_forest(r, pending_task()) == count_forest(s, pending_task()) + 1
            &&& count_forest(r, done_task()) == count_forest(s, done_task())
        }),
{
    let t = fresh_task(text, tag, id, created_at);
    let r = sorted_forest(s.push(t), now);
    law_sort_keeps_tasks(s.push(t), any_task(), now);
    law_sort_keeps_tasks(s.push(t), pending_task(), now);
    law_sort_keeps_tasks(s.push(t), done_task(), now);
    assert(s.push(t).drop_last() =~= s);
    assert(strip(t) =~= t);
    assert(count_forest(t.children, any_task()) == 0);
    assert(count_forest(t.children, pending_task()) == 0);
    assert(count_forest(t.children, done_task()) == 0);
    assert(count_tree(t, any_task()) == 1);
    assert(count_tree(t, pending_task()) == 1);
    assert(count_tree(t, done_task()) == 0);
    assert(count_forest(s.push(t), any_task()) == count_forest(s, any_task()) + 1);
    assert(count_forest(s.push(t), pending_task()) == count_forest(s, pending_task()) + 1);
    assert(count_forest(s.push(t), done_task()) == count_forest(s, done_task()));
}

proof fn lemma_listed_insert(v: Seq<(String, usize)>, k: int, x: (String, usize))
    requires
        tag_list_ok(v),
        0 <= k <= v.len(),
        x.0@.len() > 0,
        x.1 > 0,
        forall|i: int| 0 <= i < v.len() ==> (#[trigger] v[i]).0@ != x.0@,
    ensures
        tag_list_ok(v.insert(k, x)),
        forall|t: Seq<char>| #[trigger] listed_count(v.insert(k, x), t) == (if t == x.0@ { x.1 as nat } else { listed_count(v, t) }),
{
    let w = v.insert(k, x);
    assert forall|a: int, b: int| 0 <= a < b < w.len() implies (#[trigger] w[a]).0@ != (#[trigger] w[b]).0@ by {
        if a < k {
            if b < k {
                assert(v[a].0@ != v[b].0@);
            } else if b > k {
                assert(v[a].0@ != v[b - 1].0@);
            }
        } else if a == k {
            assert(v[b - 1].0@ != x.0@);
        } else {
            assert(v[a - 1].0@ != v[b - 1].0@);
        }
    }
    assert(tag_list_ok(w));
    assert forall|t: Seq<char>| #[trigger] listed_count(w, t) == (if t == x.0@ { x.1 as nat } else { listed_count(v, t) }) by {
        if t == x.0@ {
            lemma_listed_at(w, k);
        } else if exists|j: int| 0 <= j < v.len() && (#[trigger] v[j]).0@ == t {
            let j = choose|j: int| 0 <= j < v.len() && (#[trigger] v[j]).0@ == t;
            lemma_listed_at(v, j);
            if j < k {
                lemma_listed_at(w, j);
                assert(w[j] == v[j]);
            } else {
                lemma_listed_at(w, j + 1);
                assert(w[j + 1] == v[j]);
            }
        } else {
            assert forall|j: int| 0 <= j < w.len() implies (#[trigger] w[j]).0@ != t by {
                if j < k {
                    assert(w[j] == v[j]);
                } else if j > k {
                    assert(w[j] == v[j - 1]);
                }
            }
        }
    }
}

/// Tag entries with the largest count first.
pub open spec fn by_count_desc(v: Seq<(String, usize)>) -> bool {
    forall|a: int, b: int| 0 <= a < b < v.len() ==> (#[trigger] v[a]).1 >= (#[trigger] v[b]).1
}

/// Sorts tag entries by count, largest first, keeping the order of equal counts.
pub fn sort_tags_by_count(v: Vec<(String, usize)>) -> (r: Vec<(String, usize)>)
    requires
        tag_list_ok(v@),
    ensures
        tag_list_ok(r@),
        by_count_desc(r@),
        forall|t: Seq<char>| #[trigger] listed_count(r@, t) == listed_count(v@, t),
{
    let ghost v0 = v@;
    let mut rest = v;
    let mut sorted: Vec<(String, usize)> = Vec::new();
    let n = rest.len();
    let mut i: usize = 0;
    while i < n
        invariant
            n == v0.len(),
            i <= n,
            tag_list_ok(v0),
            rest@ == v0.skip(i as int),
            tag_list_ok(sorted@),
            by_count_desc(sorted@),
            forall|t: Seq<char>| #[trigger] listed_count(sorted@, t) == listed_count(v0.take(i as int), t),
        decreases n - i,
    {
        let x = rest.remove(0);
        proof {
            assert(x == v0[i as int]);
            assert(v0.take(i as int + 1) =~= v0.take(i as int).insert(i as int, x));
            assert forall|j: int| 0 <= j < i implies (#[trigger] v0.take(i as int)[j]).0@ != x.0@ by {
                assert(v0[j].0@ != v0[i as int].0@);
            }
            assert(tag_list_ok(v0.take(i as int)));
            lemma_listed_insert(v0.take(i as int), i as int, x);
            assert(listed_count(sorted@, x.0@) == 0) by {
                assert(listed_count(v0.take(i as int), x.0@) == 0);
            }
            assert forall|j: int| 0 <= j < sorted@.len() implies (#[trigger] sorted@[j]).0@ != x.0@ by {
                if sorted@[j].0@ == x.0@ {
                    lemma_listed_at(sorted@, j);
                }
            }
        }
        let mut k: usize = sorted.len();
        while k > 0 && sorted[k - 1].1 < x.1
            invariant
                k <= sorted@.len(),
                forall|j: int| k <= j < sorted@.len() ==> (#[trigger] sorted@[j]).1 < x.1,
            decreases k,
        {
            k = k - 1;
        }
        proof {
            lemma_listed_insert(sorted@, k as int, x);
            assert(rest@ =~= v0.skip(i as int + 1));
        }
        sorted.insert(k, x);
        proof {
            let w = sorted@;
            assert forall|a: int, b: int| 0 <= a < b < w.len() implies (#[trigger] w[a]).1 >= (#[trigger] w[b]).1 by {
                let old_s = w.remove(k as int);
                if a < k && b == k {
                    assert(w[a] == old_s[a]);
                } else if a < k && b > k {
                    assert(w[a] == old_s[a] && w[b] == old_s[b - 1]);
                } else if a == k {
                    assert(w[b] == old_s[b - 1]);
                } else if b < k {
                    assert(w[a] == old_s[a] && w[b] == old_s[b]);
                } else {
                    assert(w[a] == old_s[a - 1] && w[b] == old_s[b - 1]);
                }
            }
        }
        i = i + 1;
    }
    proof {
        assert(v0.take(n as int) =~= v0);
    }
    sorted
}

impl Storage {
    /// Recounts the tags of the task list when they were marked stale: one
    /// entry per non-empty tag with the number of tasks carrying it, largest
    /// count first.
    pub fn rebuild_tags(&mut self)
        requires
            count_forest(old(self).tasks(), any_task()) <= usize::MAX,
        ensures
            !old(self).dirty_tags ==> final(self).tags_available == old(self).tags_available && !final(self).dirty_tags,
            old(self).dirty_tags ==> !final(self).dirty_tags && tag_list_ok(final(self).tags_available@)
                && by_count_desc(final(self).tags_available@),
            old(self).dirty_tags ==> forall|t: Seq<char>| #[trigger] listed_count(final(self).tags_available@, t)
                == (if t.len() > 0 { count_forest(old(self).tasks(), has_tag(t)) } else { 0 }),
            final(self).tasks() == old(self).tasks(),
            final(self).search == old(self).search,
            final(self).filter_tag == old(self).filter_tag,
            final(self).projects_dir == old(self).projects_dir,
            final(self).current_project == old(self).current_project,
            final(self).expanded@ == old(self).expanded@,
    {
        if !self.dirty_tags {
            return;
        }
        let ghost fv = self.tasks();
        proof {
            lemma_forest_view(self.todos@);
        }
        let mut counts: Vec<(String, usize)> = Vec::new();
        let mut i: usize = 0;
        while i < self.todos.len()
            invariant
                i <= self.todos.len(),
                fv == forest_view(self.todos@),
                fv.len() == self.todos@.len(),
                forall|j: int| 0 <= j < fv.len() ==> #[trigger] fv[j] == node_view(self.todos@[j]),
                count_forest(fv, any_task()) <= usize::MAX,
                tag_list_ok(counts@),
                forall|t: Seq<char>| #[trigger] listed_count(counts@, t) == (if t.len() > 0 {
                    count_forest(fv.take(i as int), has_tag(t))
                } else { 0 }),
            decreases self.todos.len() - i,
        {
            let ghost before = counts@;
            proof {
                assert forall|t: Seq<char>| listed_count(before, t) + count_tree(self.todos@[i as int]@, #[trigger] has_tag(t)) <= usize::MAX by {
                    lemma_count_append(fv.take(i as int + 1), fv.skip(i as int + 1), has_tag(t));
                    assert(fv =~= fv.take(i as int + 1) + fv.skip(i as int + 1));
                    assert(fv.take(i as int + 1).drop_last() =~= fv.take(i as int));
                    lemma_count_mono(fv, any_task(), has_tag(t));
                    assert(fv[i as int] == self.todos@[i as int]@);
                }
            }
            self.todos[i].collect_tags(&mut counts);
            proof {
                assert forall|t: Seq<char>| #[trigger] listed_count(counts@, t) == (if t.len() > 0 {
                    count_forest(fv.take(i as int + 1), has_tag(t))
                } else { 0 }) by {
                    assert(fv.take(i as int + 1).drop_last() =~= fv.take(i as int));
                    assert(fv[i as int] == self.todos@[i as int]@);
                }
            }
            i = i + 1;
        }
        proof {
            assert(fv.take(i as int) =~= fv);
        }
        self.tags_available = sort_tags_by_count(counts);
        self.dirty_tags = false;
    }
}

/// Index of the first tree of `s` that satisfies `p`; -1 when none does.
pub open spec fn first_index(s: Seq<TaskView>, p: spec_fn(TaskView) -> bool) -> int
    decreases s.len(),
{
    if s.len() == 0 {
        -1
    } else {
        let r = first_index(s.drop_last(), p);
        if r >= 0 {
            r
        } else if p(s.last()) {
            s.len() - 1
        } else {
            -1
        }
    }
}

/// Trees whose root has the id.
pub open spec fn id_is(id: u64) -> spec_fn(TaskView) -> bool {
    |t: TaskView| t.id == id
}

/// Trees that hold a task with the id.
pub open spec fn holds(id: u64) -> spec_fn(TaskView) -> bool {
    |t: TaskView| find_tree(t, id) is Some
}

/// A forest with the task with the id removed, subtasks and all: a
/// top-level task with it goes first; else the search descends into the
/// first tree that holds the id and does the same there.
pub open spec fn remove_first(s: Seq<TaskView>, id: u64) -> Seq<TaskView>
    decreases s,
{
    let i = first_index(s, id_is(id));
    let j = first_index(s, holds(id));
    if 0 <= i < s.len() {
        s.remove(i)
    } else if 0 <= j < s.len() {
        s.update(j, TaskView { children: remove_first(s[j].children, id), ..s[j] })
    } else {
        s
    }
}

proof fn lemma_first_index(s: Seq<TaskView>, p: spec_fn(TaskView) -> bool, i: int)
    requires
        0 <= i <= s.len(),
        forall|k: int| 0 <= k < i ==> !p(#[trigger] s[k]),
    ensures
        i < s.len() && p(s[i]) ==> first_index(s, p) == i,
        i == s.len() ==> first_index(s, p) == -1,
        -1 <= first_index(s, p) < s.len(),
        first_index(s, p) >= 0 ==> p(s[first_index(s, p)]),
    decreases s.len(),
{
    if s.len() > 0 {
        if i == s.len() {
            lemma_first_index(s.drop_last(), p, i - 1);
        } else if i == s.len() - 1 {
            lemma_first_index(s.drop_last(), p, i);
        } else {
            lemma_first_index(s.drop_last(), p, i);
        }
    }
}

proof fn lemma_find_holder(s: Seq<TaskView>, id: u64)
    ensures
        find_forest(s, id) is Some <==> first_index(s, holds(id)) >= 0,
        first_index(s, id_is(id)) >= 0 ==> first_index(s, holds(id)) >= 0,
    decreases s.len(),
{
    if s.len() > 0 {
        lemma_find_holder(s.drop_last(), id);
    }
}

/// Removes the task with the id from the forest (see `remove_first`).
fn remove_recursive(v: &mut Vec<Todo>, id: u64) -> (found: bool)
    ensures
        found == find_forest(forest_view(old(v)@), id) is Some,
        forest_view(final(v)@) == remove_first(forest_view(old(v)@), id),
    decreases old(v)@,
{
    let ghost fv = forest_view(v@);
    proof {
        lemma_forest_view(v@);
        lemma_find_holder(fv, id);
    }
    let mut i: usize = 0;
    while i < v.len()
        invariant
            i <= v.len(),
            v@ == old(v)@,
            fv == forest_view(v@),
            fv.len() == v@.len(),
            forall|j: int| 0 <= j < fv.len() ==> #[trigger] fv[j] == node_view(v@[j]),
            forall|k: int| 0 <= k < i ==> !id_is(id)(#[trigger] fv[k]),
        decreases v.len() - i,
    {
        if v[i].id == id {
            proof {
                assert(id_is(id)(fv[i as int]));
                lemma_first_index(fv, id_is(id), i as int);
                assert(first_index(fv, id_is(id)) == i);
                lemma_find_holder(fv, id);
                assert(first_index(fv, holds(id)) >= 0);
                assert(find_forest(fv, id) is Some);
            }
            v.remove(i);
            proof {
                lemma_forest_view(v@);
                assert(forest_view(v@) =~= fv.remove(i as int));
            }
            return true;
        }
        i = i + 1;
    }
    proof {
        lemma_first_index(fv, id_is(id), i as int);
    }
    let mut j: usize = 0;
    while j < v.len()
        invariant
            j <= v.len(),
            v@ == old(v)@,
            fv == forest_view(v@),
            fv.len() == v@.len(),
            forall|k: int| 0 <= k < fv.len() ==> #[trigger] fv[k] == node_view(v@[k]),
            first_index(fv, id_is(id)) == -1,
            forall|k: int| 0 <= k < j ==> !holds(id)(#[trigger] fv[k]),
        decreases v.len() - j,
    {
        if v[j].find(id).is_some() {
            proof {
                assert(holds(id)(fv[j as int]));
                lemma_first_index(fv, holds(id), j as int);
                assert(fv[j as int].id != id) by {
                    if fv[j as int].id == id {
                        assert(id_is(id)(fv[j as int]));
                        lemma_first_index_none(fv, id_is(id), j as int);
                    }
                }
                assert(find_tree(fv[j as int], id) == find_forest(fv[j as int].children, id));
                assert(find_forest(forest_view(v@[j as int].children@), id) is Some);
                lemma_first_index_none(fv, holds(id), j as int);
                lemma_find_holder(fv, id);
                assert(find_forest(fv, id) is Some);
                assert(decreases_to!(old(v)@ => old(v)@[j as int]));
                assert(decreases_to!(old(v)@[j as int] => old(v)@[j as int].children));
                assert(decreases_to!(old(v)@[j as int].children => old(v)@[j as int].children@));
            }
            let ghost before = v@;
            let found = remove_recursive(&mut v[j].children, id);
            proof {
                lemma_forest_view(v@);
                assert(forest_view(v@) =~= fv.update(j as int, TaskView { children: remove_first(fv[j as int].children, id), ..fv[j as int] }));
            }
            return found;
        }
        j = j + 1;
    }
    proof {
        lemma_first_index(fv, holds(id), j as int);
    }
    false
}

proof fn lemma_first_index_none(s: Seq<TaskView>, p: spec_fn(TaskView) -> bool, i: int)
    requires
        0 <= i < s.len(),
        p(s[i]),
    ensures
        first_index(s, p) >= 0,
    decreases s.len(),
{
    if i < s.len() - 1 {
        lemma_first_index_none(s.drop_last(), p, i);
    }
}

/// Counting splits around the `i`-th tree of a list.
proof fn lemma_count_at(s: Seq<TaskView>, i: int, p: spec_fn(TaskView) -> bool)
    requires
        0 <= i < s.len(),
    ensures
        count_forest(s, p) == count_forest(s.take(i), p) + count_tree(s[i], p) + count_forest(s.skip(i + 1), p),
{
    lemma_count_append(s.take(i + 1), s.skip(i + 1), p);
    assert(s =~= s.take(i + 1) + s.skip(i + 1));
    assert(s.take(i + 1).drop_last() =~= s.take(i));
}

/// Counting after one tree of a list is taken out or replaced.
proof fn lemma_count_remove_update(s: Seq<TaskView>, i: int, v: TaskView, p: spec_fn(TaskView) -> bool)
    requires
        0 <= i < s.len(),
    ensures
        count_forest(s.remove(i), p) + count_tree(s[i], p) == count_forest(s, p),
        count_forest(s.update(i, v), p) + count_tree(s[i], p) == count_forest(s, p) + count_tree(v, p),
{
    lemma_count_at(s, i, p);
    lemma_count_append(s.take(i), s.skip(i + 1), p);
    assert(s.remove(i) =~= s.take(i) + s.skip(i + 1));
    let u = s.update(i, v);
    lemma_count_at(u, i, p);
    assert(u.take(i) =~= s.take(i));
    assert(u.skip(i + 1) =~= s.skip(i + 1));
}

/// Taking out the task with the id, subtasks and all, counts no more of
/// anything than before, and strictly fewer tasks and tasks with the id.
proof fn lemma_remove_count(s: Seq<TaskView>, id: u64, p: spec_fn(TaskView) -> bool)
    requires
        find_forest(s, id) is Some,
    ensures
        count_forest(remove_first(s, id), p) <= count_forest(s, p),
        count_forest(remove_first(s, id), id_is(id)) < count_forest(s, id_is(id)),
        count_forest(remove_first(s, id), any_task()) < count_forest(s, any_task()),
    decreases s,
{
    let i = first_index(s, id_is(id));
    let j = first_index(s, holds(id));
    lemma_first_index(s, id_is(id), 0);
    lemma_first_index(s, holds(id), 0);
    lemma_find_holder(s, id);
    let dummy = s[0];
    if 0 <= i < s.len() {
        lemma_count_remove_update(s, i, dummy, p);
        lemma_count_remove_update(s, i, dummy, id_is(id));
        lemma_count_remove_update(s, i, dummy, any_task());
        assert(id_is(id)(strip(s[i])));
        assert(any_task()(strip(s[i])));
    } else {
        let t = s[j];
        if t.id == id {
            assert(id_is(id)(t));
            lemma_first_index_none(s, id_is(id), j);
        }
        assert(find_tree(t, id) == find_forest(t.children, id));
        lemma_remove_count(t.children, id, p);
        let v = TaskView { children: remove_first(t.children, id), ..t };
        assert(remove_first(s, id) == s.update(j, v));
        assert(strip(v) == strip(t));
        lemma_count_remove_update(s, j, v, p);
        lemma_count_remove_update(s, j, v, id_is(id));
        lemma_count_remove_update(s, j, v, any_task());
    }
}

/// The task list after removing the task with the id as the list view does
/// it: a top-level task goes as it is; a subtask goes and the list is then
/// sorted as of `now`.
pub open spec fn after_remove(s: Seq<TaskView>, id: u64, now: u64) -> Seq<TaskView> {
    if first_index(s, id_is(id)) >= 0 {
        remove_first(s, id)
    } else {
        sorted_forest(remove_first(s, id), now)
    }
}

/// Law: removing a task that the list holds leaves fewer tasks, none more
/// of any kind, and fewer with its id; when it was the only task with the
/// id, no task has the id afterwards.
pub proof fn law_remove_takes_task(s: Seq<TaskView>, id: u64, p: spec_fn(TaskView) -> bool, now: u64)
    requires
        find_forest(s, id) is Some,
    ensures
        count_forest(after_remove(s, id, now), any_task()) < count_forest(s, any_task()),
        count_forest(after_remove(s, id, now), p) <= count_forest(s, p),
        count_forest(after_remove(s, id, now), id_is(id)) < count_forest(s, id_is(id)),
        count_forest(s, id_is(id)) == 1 ==> find_forest(after_remove(s, id, now), id) is None,
{
    let r = remove_first(s, id);
    lemma_remove_count(s, id, p);
    law_sort_keeps_tasks(r, p, now);
    law_sort_keeps_tasks(r, any_task(), now);
    law_sort_keeps_tasks(r, id_is(id), now);
    lemma_find_count(after_remove(s, id, now), id);
}

impl Storage {
    /// Removes the task with the id, subtasks and all (see `remove_first`);
    /// when it is not a top-level task the list is then sorted as of `now`.
    pub fn remove_task_at(&mut self, id: u64, now: u64) -> (r: Result<(), StorageError>)
        ensures
            r is Ok <==> find_forest(old(self).tasks(), id) is Some,
            r is Err ==> r == Err::<(), StorageError>(StorageError::TaskNotFound)
                && final(self).tasks() == old(self).tasks() && final(self).dirty_tags == old(self).dirty_tags,
            r is Ok ==> final(self).dirty_tags && final(self).tasks() == after_remove(old(self).tasks(), id, now),
            same_settings(*final(self), *old(self)),
    {
        let ghost fv = self.tasks();
        proof {
            lemma_forest_view(self.todos@);
            lemma_find_holder(fv, id);
        }
        let mut i: usize = 0;
        while i < self.todos.len()
            invariant
                i <= self.todos.len(),
                self.todos@ == old(self).todos@,
                fv == forest_view(self.todos@),
                forall|k: int| 0 <= k < fv.len() ==> #[trigger] fv[k] == node_view(self.todos@[k]),
                fv.len() == self.todos@.len(),
                forall|k: int| 0 <= k < i ==> !id_is(id)(#[trigger] fv[k]),
                *self == *old(self),
            decreases self.todos.len() - i,
        {
            if self.todos[i].id == id {
                proof {
                    assert(id_is(id)(fv[i as int]));
                    lemma_first_index(fv, id_is(id), i as int);
                    assert(first_index(fv, id_is(id)) == i);
                    lemma_find_holder(fv, id);
                    assert(first_index(fv, holds(id)) >= 0);
                    assert(find_forest(fv, id) is Some);
                }
                self.todos.remove(i);
                proof {
                    lemma_forest_view(self.todos@);
                    assert(forest_view(self.todos@) =~= fv.remove(i as int));
                }
                self.dirty_tags = true;
                return Ok(());
            }
            i = i + 1;
        }
        proof {
            lemma_first_index(fv, id_is(id), i as int);
        }
        if !remove_recursive(&mut self.todos, id) {
            proof {
                assert(first_index(fv, holds(id)) < 0);
                assert(remove_first(fv, id) == fv);
            }
            return Err(StorageError::TaskNotFound);
        }
        self.sort_all_at(now);
        self.dirty_tags = true;
        Ok(())
    }

    /// Removes the task with the id, subtasks and all, sorting as of now when
    /// it was not a top-level task (see `remove_task_at`).
    pub fn remove_task(&mut self, id: u64) -> (r: Result<(), StorageError>)
        ensures
            r is Ok <==> find_forest(old(self).tasks(), id) is Some,
            r is Err ==> r == Err::<(), StorageError>(StorageError::TaskNotFound)
                && final(self).tasks() == old(self).tasks() && final(self).dirty_tags == old(self).dirty_tags,
            r is Ok && first_index(old(self).tasks(), id_is(id)) >= 0 ==> final(self).tasks() == remove_first(old(self).tasks(), id),
            r is Ok && first_index(old(self).tasks(), id_is(id)) < 0 ==> (exists|now: u64| final(self).tasks() == #[trigger] sorted_forest(remove_first(old(self).tasks(), id), now)),
            r is Ok ==> final(self).dirty_tags,
            same_settings(*final(self), *old(self)),
    {
        let now = now_secs();
        self.remove_task_at(id, now)
    }
}

/// Tasks whose depth, times 4, does not fit in a machine word.
pub open spec fn too_deep() -> spec_fn(TaskView) -> bool {
    |t: TaskView| t.depth * 4 > usize::MAX
}

/// Whether a task passes the tag filter (an empty filter passes every task).
pub open spec fn tag_passes(t: TaskView, filter_tag: Seq<char>) -> bool {
    filter_tag.len() == 0 || t.tag == filter_tag
}

/// The (id, indent) rows shown for a tree: nothing when its root fails the
/// tag filter; else the root when the lowercased query is empty or occurs in
/// its lowercased text, then, when the root is expanded, the rows of its subtasks.
pub open spec fn visible_tree(t: TaskView, expanded: Set<u64>, filter_tag: Seq<char>, q: Seq<char>) -> Seq<(u64, usize)>
    decreases t,
{
    if !tag_passes(t, filter_tag) {
        Seq::empty()
    } else {
        let me = if q.len() == 0 || occurs_in(q, lowercase_of(t.text)) {
            seq![(t.id, (t.depth * 4) as usize)]
        } else {
            Seq::empty()
        };
        let below = if expanded.contains(t.id) && t.children.len() > 0 {
            visible_forest(t.children, expanded, filter_tag, q)
        } else {
            Seq::empty()
        };
        me + below
    }
}

pub open spec fn visible_forest(s: Seq<TaskView>, expanded: Set<u64>, filter_tag: Seq<char>, q: Seq<char>) -> Seq<(u64, usize)>
    decreases s,
{
    if s.len() == 0 {
        Seq::empty()
    } else {
        visible_forest(s.drop_last(), expanded, filter_tag, q) + visible_tree(s.last(), expanded, filter_tag, q)
    }
}

/// Whether a task passes the optional filters of the flat listing.
pub open spec fn flat_passes(t: TaskView, fd: Option<bool>, fp: Option<bool>, ft: Option<Seq<char>>) -> bool {
    &&& (fd matches Some(d) ==> t.done == d)
    &&& (fp matches Some(p) ==> t.pinned == p)
    &&& (ft matches Some(g) ==> t.tag == g)
}

pub open spec fn flat_pred(fd: Option<bool>, fp: Option<bool>, ft: Option<Seq<char>>) -> spec_fn(TaskView) -> bool {
    |t: TaskView| flat_passes(t, fd, fp, ft)
}

/// Every task of a tree that passes the filters, in depth-first order.
pub open spec fn flat_tree(t: TaskView, fd: Option<bool>, fp: Option<bool>, ft: Option<Seq<char>>) -> Seq<TaskView>
    decreases t,
{
    (if flat_passes(t, fd, fp, ft) { seq![t] } else { Seq::empty() }) + flat_forest(t.children, fd, fp, ft)
}

pub open spec fn flat_forest(s: Seq<TaskView>, fd: Option<bool>, fp: Option<bool>, ft: Option<Seq<char>>) -> Seq<TaskView>
    decreases s,
{
    if s.len() == 0 {
        Seq::empty()
    } else {
        flat_forest(s.drop_last(), fd, fp, ft) + flat_tree(s.last(), fd, fp, ft)
    }
}

/// Tasks with the given id and indent, with the given tag when the tag is
/// not empty, and whose lowercased text holds the query when there is one.
pub open spec fn row_task(id: u64, indent: usize, filter_tag: Seq<char>, q: Seq<char>) -> spec_fn(TaskView) -> bool {
    |x: TaskView| x.id == id && (x.depth * 4) as usize == indent && (filter_tag.len() > 0 ==> x.tag == filter_tag)
        && (q.len() > 0 ==> occurs_in(q, lowercase_of(x.text)))
}

/// Law: every row shown is that of a task of the list, with the row's id
/// and indent; under a non-empty tag filter that task has exactly the
/// filter's tag, so a task with another tag, or none, is never shown; under
/// a query its lowercased text holds the query.
pub proof fn law_visible_rows_match(
    s: Seq<TaskView>,
    expanded: Set<u64>,
    filter_tag: Seq<char>,
    q: Seq<char>,
    k: int,
)
    requires
        0 <= k < visible_forest(s, expanded, filter_tag, q).len(),
    ensures
        ({
            let row = visible_forest(s, expanded, filter_tag, q)[k];
            count_forest(s, row_task(row.0, row.1, filter_tag, q)) >= 1
        }),
    decreases s, 0int,
{
    let a = s.drop_last();
    let t = s.last();
    let va = visible_forest(a, expanded, filter_tag, q);
    let vt = visible_tree(t, expanded, filter_tag, q);
    assert(visible_forest(s, expanded, filter_tag, q) == va + vt);
    if k < va.len() {
        law_visible_rows_match(a, expanded, filter_tag, q, k);
        assert((va + vt)[k] == va[k]);
    } else {
        law_visible_tree_rows_match(t, expanded, filter_tag, q, k - va.len());
        assert((va + vt)[k] == vt[k - va.len()]);
    }
}

/// The rows of one tree (see `law_visible_rows_match`).
pub proof fn law_visible_tree_rows_match(
    t: TaskView,
    expanded: Set<u64>,
    filter_tag: Seq<char>,
    q: Seq<char>,
    k: int,
)
    requires
        0 <= k < visible_tree(t, expanded, filter_tag, q).len(),
    ensures
        ({
            let row = visible_tree(t, expanded, filter_tag, q)[k];
            count_tree(t, row_task(row.0, row.1, filter_tag, q)) >= 1
        }),
    decreases t, 1int,
{
    let me = if q.len() == 0 || occurs_in(q, lowercase_of(t.text)) {
        seq![(t.id, (t.depth * 4) as usize)]
    } else {
        Seq::<(u64, usize)>::empty()
    };
    let below = if expanded.contains(t.id) && t.children.len() > 0 {
        visible_forest(t.children, expanded, filter_tag, q)
    } else {
        Seq::<(u64, usize)>::empty()
    };
    assert(tag_passes(t, filter_tag));
    assert(visible_tree(t, expanded, filter_tag, q) == me + below);
    if k < me.len() {
        assert((me + below)[k] == (t.id, (t.depth * 4) as usize));
        assert(row_task(t.id, (t.depth * 4) as usize, filter_tag, q)(strip(t)));
    } else {
        assert((me + below)[k] == below[k - me.len()]);
        law_visible_rows_match(t.children, expanded, filter_tag, q, k - me.len());
    }
}

/// Tasks that pass the filters of the flat listing: done or not as asked,
/// pinned or not as asked, with the tag asked for.
pub open spec fn listed_by(fd: Option<bool>, fp: Option<bool>, ft: Option<Seq<char>>) -> spec_fn(TaskView) -> bool {
    |x: TaskView| (fd is None || x.done == fd->0) && (fp is None || x.pinned == fp->0) && (ft is None || x.tag == ft->0)
}

/// Law: every task of the flat listing is a task of the list that is done
/// or not, pinned or not, and tagged as the filters ask.
pub proof fn law_flat_filters_hold(s: Seq<TaskView>, fd: Option<bool>, fp: Option<bool>, ft: Option<Seq<char>>, k: int)
    requires
        0 <= k < flat_forest(s, fd, fp, ft).len(),
    ensures
        ({
            let e = flat_forest(s, fd, fp, ft)[k];
            &&& listed_by(fd, fp, ft)(e)
            &&& count_forest(s, same_as(strip(e))) >= 1
        }),
    decreases s, 0int,
{
    let a = s.drop_last();
    let t = s.last();
    let fa = flat_forest(a, fd, fp, ft);
    let ftt = flat_tree(t, fd, fp, ft);
    assert(flat_forest(s, fd, fp, ft) == fa + ftt);
    if k < fa.len() {
        law_flat_filters_hold(a, fd, fp, ft, k);
        assert((fa + ftt)[k] == fa[k]);
    } else {
        law_flat_tree_filters_hold(t, fd, fp, ft, k - fa.len());
        assert((fa + ftt)[k] == ftt[k - fa.len()]);
    }
}

/// The tasks of one tree's flat listing (see `law_flat_filters_hold`).
pub proof fn law_flat_tree_filters_hold(t: TaskView, fd: Option<bool>, fp: Option<bool>, ft: Option<Seq<char>>, k: int)
    requires
        0 <= k < flat_tree(t, fd, fp, ft).len(),
    ensures
        ({
            let e = flat_tree(t, fd, fp, ft)[k];
            &&& listed_by(fd, fp, ft)(e)
            &&& count_tree(t, same_as(strip(e))) >= 1
        }),
    decreases t, 1int,
{
    let me = if flat_passes(t, fd, fp, ft) { seq![t] } else { Seq::<TaskView>::empty() };
    let below = flat_forest(t.children, fd, fp, ft);
    assert(flat_tree(t, fd, fp, ft) == me + below);
    if k < me.len() {
        assert((me + below)[k] == t);
        assert(same_as(strip(t))(strip(t)));
    } else {
        assert((me + below)[k] == below[k - me.len()]);
        law_flat_filters_hold(t.children, fd, fp, ft, k - me.len());
    }
}

/// Law: the flat listing holds as many tasks as the list has tasks that
/// are done or not, pinned or not, and tagged as the filters ask.
pub proof fn law_flat_lists_all_matching(s: Seq<TaskView>, fd: Option<bool>, fp: Option<bool>, ft: Option<Seq<char>>)
    ensures
        flat_forest(s, fd, fp, ft).len() == count_forest(s, listed_by(fd, fp, ft)),
{
    law_flat_len(s, fd, fp, ft);
    let p = flat_pred(fd, fp, ft);
    let q = listed_by(fd, fp, ft);
    assert forall|x: TaskView| #[trigger] q(x) ==> p(x) by {}
    assert forall|x: TaskView| #[trigger] p(x) ==> q(x) by {}
    lemma_count_mono(s, p, q);
    lemma_count_mono(s, q, p);
}

/// Law: the flat listing holds exactly as many tasks as pass its filters;
/// with no filter, every task of the list.
pub proof fn law_flat_len(s: Seq<TaskView>, fd: Option<bool>, fp: Option<bool>, ft: Option<Seq<char>>)
    ensures
        flat_forest(s, fd, fp, ft).len() == count_forest(s, flat_pred(fd, fp, ft)),
        flat_forest(s, None, None, None).len() == count_forest(s, any_task()),
    decreases s,
{
    if s.len() > 0 {
        let t = s.last();
        law_flat_len(s.drop_last(), fd, fp, ft);
        law_flat_len(t.children, fd, fp, ft);
        assert(flat_passes(t, fd, fp, ft) == flat_pred(fd, fp, ft)(strip(t)));
        assert(flat_passes(t, None, None, None));
        assert(any_task()(strip(t)));
        assert(flat_forest(s, fd, fp, ft).len() == flat_forest(s.drop_last(), fd, fp, ft).len()
            + flat_tree(t, fd, fp, ft).len());
        assert(flat_tree(t, fd, fp, ft).len() == (if flat_passes(t, fd, fp, ft) { 1int } else { 0int })
            + flat_forest(t.children, fd, fp, ft).len());
        assert(count_forest(s, flat_pred(fd, fp, ft)) == count_forest(s.drop_last(), flat_pred(fd, fp, ft))
            + count_tree(t, flat_pred(fd, fp, ft)));
        assert(flat_forest(s, None, None, None).len() == flat_forest(s.drop_last(), None, None, None).len()
            + flat_tree(t, None, None, None).len());
        assert(flat_tree(t, None, None, None).len() == 1 + flat_forest(t.children, None, None, None).len());
        assert(count_forest(s, any_task()) == count_forest(s.drop_last(), any_task()) + count_tree(t, any_task()));
    }
}

proof fn lemma_no_deep_elem(s: Seq<TaskView>, i: int)
    requires
        0 <= i < s.len(),
        count_forest(s, too_deep()) == 0,
    ensures
        count_tree(s[i], too_deep()) == 0,
        s[i].depth * 4 <= usize::MAX,
        count_forest(s[i].children, too_deep()) == 0,
{
    lemma_count_elem(s, i, too_deep());
    assert(!too_deep()(strip(s[i])));
}

impl Storage {
    fn visit_for_visible(&self, todo: &Todo, out: &mut Vec<(u64, usize)>, filter_tag: &String, search_lower: &String)
        requires
            count_tree(todo@, too_deep()) == 0,
        ensures
            final(out)@ == old(out)@ + visible_tree(todo@, self.expanded@, filter_tag@, search_lower@),
        decreases todo,
    {
        let tag_match = filter_tag.as_str().is_empty() || todo.tag == *filter_tag;
        if !tag_match {
            proof {
                assert(old(out)@ + Seq::<(u64, usize)>::empty() =~= old(out)@);
            }
            return;
        }
        let ghost o0 = out@;
        proof {
            assert(!too_deep()(strip(todo@)));
        }
        let search_match = search_lower.as_str().is_empty() || contains_str(to_lowercase(todo.text.as_str()).as_str(), search_lower.as_str());
        if search_match {
            let offset = todo.depth * 4;
            out.push((todo.id, offset));
        }
        let ghost o1 = out@;
        let ghost cv = forest_view(todo.children@);
        proof {
            lemma_forest_view(todo.children@);
        }
        if self.is_expanded(todo.id) && todo.children.len() > 0 {
            let mut i: usize = 0;
            while i < todo.children.len()
                invariant
                    i <= todo.children.len(),
                    cv == forest_view(todo.children@),
                    cv.len() == todo.children@.len(),
                    forall|j: int| 0 <= j < cv.len() ==> #[trigger] cv[j] == node_view(todo.children@[j]),
                    count_forest(cv, too_deep()) == 0,
                    out@ == o1 + visible_forest(cv.take(i as int), self.expanded@, filter_tag@, search_lower@),
                decreases todo.children.len() - i,
            {
                proof {
                    lemma_no_deep_elem(cv, i as int);
                    assert(cv.take(i as int + 1).drop_last() =~= cv.take(i as int));
                }
                let ghost before = out@;
                self.visit_for_visible(&todo.children[i], out, filter_tag, search_lower);
                proof {
                    assert(out@ =~= o1 + visible_forest(cv.take(i as int + 1), self.expanded@, filter_tag@, search_lower@));
                }
                i = i + 1;
            }
            proof {
                assert(cv.take(i as int) =~= cv);
                assert(out@ =~= o0 + visible_tree(todo@, self.expanded@, filter_tag@, search_lower@));
            }
        } else {
            proof {
                assert(out@ =~= o0 + visible_tree(todo@, self.expanded@, filter_tag@, search_lower@));
            }
        }
    }

    /// The (id, indent) rows of the list as shown: tasks passing the tag
    /// filter whose lowercased text holds the lowercased search, with the
    /// subtasks of expanded tasks below them (see `visible_tree`); the indent
    /// is 4 columns per level of depth.
    pub fn build_visible_with_offset(&self, filter_tag: &str, search: &str) -> (r: Vec<(u64, usize)>)
        requires
            count_forest(self.tasks(), too_deep()) == 0,
        ensures
            r@ == visible_forest(self.tasks(), self.expanded@, filter_tag@, lowercase_of(search@)),
    {
        let search_lower = to_lowercase(search);
        let filter = String::from_str(filter_tag);
        let mut visible: Vec<(u64, usize)> = Vec::new();
        let ghost fv = self.tasks();
        proof {
            lemma_forest_view(self.todos@);
        }
        let mut i: usize = 0;
        while i < self.todos.len()
            invariant
                i <= self.todos.len(),
                fv == self.tasks(),
                fv.len() == self.todos@.len(),
                forall|j: int| 0 <= j < fv.len() ==> #[trigger] fv[j] == node_view(self.todos@[j]),
                count_forest(fv, too_deep()) == 0,
                filter@ == filter_tag@,
                search_lower@ == lowercase_of(search@),
                visible@ == visible_forest(fv.take(i as int), self.expanded@, filter_tag@, lowercase_of(search@)),
            decreases self.todos.len() - i,
        {
            proof {
                lemma_no_deep_elem(fv, i as int);
                assert(fv.take(i as int + 1).drop_last() =~= fv.take(i as int));
            }
            self.visit_for_visible(&self.todos[i], &mut visible, &filter, &search_lower);
            i = i + 1;
        }
        proof {
            assert(fv.take(i as int) =~= fv);
        }
        visible
    }

    fn visit_flat<'a>(
        &self,
        todo: &'a Todo,
        out: &mut Vec<(usize, &'a Todo)>,
        idx: &mut usize,
        filter_done: Option<bool>,
        filter_pinned: Option<bool>,
        filter_tag: &Option<String>,
    )
        requires
            *old(idx) == old(out)@.len() + 1,
            old(out)@.len() + count_tree(todo@, any_task()) < usize::MAX,
        ensures
            *final(idx) == final(out)@.len() + 1,
            final(out)@.len() == old(out)@.len() + flat_tree(todo@, filter_done, filter_pinned, opt_view(*filter_tag)).len(),
            forall|k: int| 0 <= k < old(out)@.len() ==> #[trigger] final(out)@[k] == old(out)@[k],
            forall|k: int| old(out)@.len() <= k < final(out)@.len() ==> (#[trigger] final(out)@[k]).0 == k + 1
                && final(out)@[k].1@ == flat_tree(todo@, filter_done, filter_pinned, opt_view(*filter_tag))[k - old(out)@.len()],
        decreases todo,
    {
        let ghost ft = opt_view(*filter_tag);
        let mut matches = true;
        if let Some(done) = filter_done {
            if todo.done != done {
                matches = false;
            }
        }
        if matches {
            if let Some(pinned) = filter_pinned {
                if todo.pinned != pinned {
                    matches = false;
                }
            }
        }
        if matches {
            if let Some(tag) = filter_tag {
                if todo.tag != *tag {
                    matches = false;
                }
            }
        }
        proof {
            assert(matches == flat_passes(todo@, filter_done, filter_pinned, ft));
            law_flat_len(todo@.children, filter_done, filter_pinned, ft);
            lemma_count_mono(todo@.children, any_task(), flat_pred(filter_done, filter_pinned, ft));
            assert(flat_passes(todo@, None, None, None));
            assert(any_task()(strip(todo@)));
        }
        let ghost o0 = out@;
        if matches {
            out.push((*idx, todo));
            *idx = *idx + 1;
        }
        let ghost o1 = out@;
        let ghost mine: Seq<TaskView> = if matches { seq![todo@] } else { Seq::empty() };
        let ghost cv = forest_view(todo.children@);
        proof {
            lemma_forest_view(todo.children@);
        }
        let mut i: usize = 0;
        while i < todo.children.len()
            invariant
                i <= todo.children.len(),
                cv == forest_view(todo.children@),
                cv == todo@.children,
                cv.len() == todo.children@.len(),
                forall|j: int| 0 <= j < cv.len() ==> #[trigger] cv[j] == node_view(todo.children@[j]),
                ft == opt_view(*filter_tag),
                o1.len() == o0.len() + mine.len(),
                mine.len() <= 1,
                o0.len() + count_tree(todo@, any_task()) < usize::MAX,
                count_tree(todo@, any_task()) == 1 + count_forest(cv, any_task()),
                *idx == out@.len() + 1,
                out@.len() == o1.len() + flat_forest(cv.take(i as int), filter_done, filter_pinned, ft).len(),
                forall|k: int| 0 <= k < o1.len() ==> #[trigger] out@[k] == o1[k],
                forall|k: int| o1.len() <= k < out@.len() ==> (#[trigger] out@[k]).0 == k + 1
                    && out@[k].1@ == flat_forest(cv.take(i as int), filter_done, filter_pinned, ft)[k - o1.len()],
                flat_forest(cv.take(i as int), filter_done, filter_pinned, ft).len() <= count_forest(cv.take(i as int), any_task()),
            decreases todo.children.len() - i,
        {
            proof {
                lemma_count_elem(cv, i as int, any_task());
                law_flat_len(cv.take(i as int + 1), filter_done, filter_pinned, ft);
                lemma_count_mono(cv.take(i as int + 1), any_task(), flat_pred(filter_done, filter_pinned, ft));
                assert(cv.take(i as int + 1).drop_last() =~= cv.take(i as int));
                assert(cv.take(i as int + 1).last() == cv[i as int]);
                law_flat_len(cv.take(i as int), filter_done, filter_pinned, ft);
                lemma_count_mono(cv.take(i as int), any_task(), flat_pred(filter_done, filter_pinned, ft));
            }
            let ghost before = out@;
            self.visit_flat(&todo.children[i], out, idx, filter_done, filter_pinned, filter_tag);
            proof {
                let prev = flat_forest(cv.take(i as int), filter_done, filter_pinned, ft);
                let add = flat_tree(cv[i as int], filter_done, filter_pinned, ft);
                assert(flat_forest(cv.take(i as int + 1), filter_done, filter_pinned, ft) == prev + add);
                assert forall|k: int| o1.len() <= k < out@.len() implies (#[trigger] out@[k]).0 == k + 1
                    && out@[k].1@ == flat_forest(cv.take(i as int + 1), filter_done, filter_pinned, ft)[k - o1.len()] by {
                    if k < before.len() {
                        assert(out@[k] == before[k]);
                    }
                }
            }
            i = i + 1;
        }
        proof {
            assert(cv.take(i as int) =~= cv);
            let whole = flat_tree(todo@, filter_done, filter_pinned, ft);
            assert(whole == mine + flat_forest(cv, filter_done, filter_pinned, ft));
            assert forall|k: int| o0.len() <= k < out@.len() implies (#[trigger] out@[k]).0 == k + 1
                && out@[k].1@ == whole[k - o0.len()] by {
                if k < o1.len() {
                    assert(out@[k] == o1[k]);
                }
            }
        }
    }

    /// Every task passing the optional filters (done state, pinned state,
    /// tag), in depth-first order, numbered from 1.
    pub fn list_tasks_flat(&self, filter_done: Option<bool>, filter_pinned: Option<bool>, filter_tag: Option<&str>) -> (r: Vec<(usize, &Todo)>)
        requires
            count_forest(self.tasks(), any_task()) < usize::MAX,
        ensures
            r@.len() == flat_forest(self.tasks(), filter_done, filter_pinned, opt_str_view(filter_tag)).len(),
            forall|k: int| 0 <= k < r@.len() ==> (#[trigger] r@[k]).0 == k + 1
                && r@[k].1@ == flat_forest(self.tasks(), filter_done, filter_pinned, opt_str_view(filter_tag))[k],
    {
        let tag: Option<String> = match filter_tag {
            Some(t) => Some(String::from_str(t)),
            None => None,
        };
        let ghost ft = opt_str_view(filter_tag);
        proof {
            assert(opt_view(tag) == ft);
        }
        let mut result: Vec<(usize, &Todo)> = Vec::new();
        let mut index: usize = 1;
        let ghost fv = self.tasks();
        proof {
            lemma_forest_view(self.todos@);
        }
        let mut i: usize = 0;
        while i < self.todos.len()
            invariant
                i <= self.todos.len(),
                fv == self.tasks(),
                fv.len() == self.todos@.len(),
                forall|j: int| 0 <= j < fv.len() ==> #[trigger] fv[j] == node_view(self.todos@[j]),
                count_forest(fv, any_task()) < usize::MAX,
                ft == opt_view(tag),
                index == result@.len() + 1,
                result@.len() == flat_forest(fv.take(i as int), filter_done, filter_pinned, ft).len(),
                forall|k: int| 0 <= k < result@.len() ==> (#[trigger] result@[k]).0 == k + 1
                    && result@[k].1@ == flat_forest(fv.take(i as int), filter_done, filter_pinned, ft)[k],
            decreases self.todos.len() - i,
        {
            proof {
                lemma_count_elem(fv, i as int, any_task());
                law_flat_len(fv.take(i as int), filter_done, filter_pinned, ft);
                lemma_count_mono(fv.take(i as int), any_task(), flat_pred(filter_done, filter_pinned, ft));
                assert(fv.take(i as int + 1).drop_last() =~= fv.take(i as int));
            }
            let ghost before = result@;
            self.visit_flat(&self.todos[i], &mut result, &mut index, filter_done, filter_pinned, &tag);
            proof {
                assert forall|k: int| 0 <= k < result@.len() implies (#[trigger] result@[k]).0 == k + 1
                    && result@[k].1@ == flat_forest(fv.take(i as int + 1), filter_done, filter_pinned, ft)[k] by {
                    if k < before.len() {
                        assert(result@[k] == before[k]);
                    }
                }
            }
            i = i + 1;
        }
        proof {
            assert(fv.take(i as int) =~= fv);
        }
        result
    }
}

pub open spec fn opt_view(t: Option<String>) -> Option<Seq<char>> {
    match t {
        Some(s) => Some(s@),
        None => None,
    }
}

pub open spec fn opt_str_view(t: Option<&str>) -> Option<Seq<char>> {
    match t {
        Some(s) => Some(s@),
        None => None,
    }
}

} // verus!
