use vstd::prelude::*;
use std::time::{SystemTime, UNIX_EPOCH};

verus! {

/// A task with its nested subtasks.
pub struct Todo {
    pub id: u64,
    pub parent_id: Option<u64>,
    pub depth: usize,
    pub done: bool,
    pub pinned: bool,
    pub tag: String,
    pub text: String,
    pub created_at: u64,
    pub done_at: u64,
    pub due_date: u64,
    pub children: Vec<Todo>,
}

/// Mathematical model of a task tree.
#[verifier::ext_equal]
pub struct TaskView {
    pub id: u64,
    pub parent_id: Option<u64>,
    pub depth: usize,
    pub done: bool,
    pub pinned: bool,
    pub tag: Seq<char>,
    pub text: Seq<char>,
    pub created_at: u64,
    pub done_at: u64,
    pub due_date: u64,
    pub children: Seq<TaskView>,
}

/// The model of a sequence of task trees.
pub open spec fn forest_view(s: Seq<Todo>) -> Seq<TaskView>
    decreases s,
{
    if s.len() == 0 {
        Seq::empty()
    } else {
        forest_view(s.drop_last()).push(node_view(s.last()))
    }
}

/// The model of one task tree.
pub open spec fn node_view(t: Todo) -> TaskView
    decreases t,
{
    TaskView {
        id: t.id,
        parent_id: t.parent_id,
        depth: t.depth,
        done: t.done,
        pinned: t.pinned,
        tag: t.tag@,
        text: t.text@,
        created_at: t.created_at,
        done_at: t.done_at,
        due_date: t.due_date,
        children: forest_view(t.children@),
    }
}

impl View for Todo {
    type V = TaskView;

    open spec fn view(&self) -> TaskView {
        node_view(*self)
    }
}

pub proof fn lemma_forest_view(s: Seq<Todo>)
    ensures
        forest_view(s).len() == s.len(),
        forall|i: int| 0 <= i < s.len() ==> #[trigger] forest_view(s)[i] == node_view(s[i]),
    decreases s.len(),
{
    if s.len() > 0 {
        lemma_forest_view(s.drop_last());
    }
}

/// The model of a list with one task replaced.
pub proof fn lemma_forest_view_update(s: Seq<Todo>, i: int, x: Todo)
    requires
        0 <= i < s.len(),
    ensures
        forest_view(s.update(i, x)) == forest_view(s).update(i, node_view(x)),
{
    lemma_forest_view(s);
    lemma_forest_view(s.update(i, x));
    assert(forest_view(s.update(i, x)) =~= forest_view(s).update(i, node_view(x)));
}

/// A task without its subtasks: what a task states about itself alone.
pub open spec fn strip(t: TaskView) -> TaskView {
    TaskView { children: Seq::empty(), ..t }
}

/// Number of tasks, subtasks included, in a forest that satisfy `p`.
pub open spec fn count_forest(s: Seq<TaskView>, p: spec_fn(TaskView) -> bool) -> nat
    decreases s,
{
    if s.len() == 0 {
        0
    } else {
        count_forest(s.drop_last(), p) + count_tree(s.last(), p)
    }
}

/// Number of tasks in a tree, the root included, that satisfy `p`.
pub open spec fn count_tree(t: TaskView, p: spec_fn(TaskView) -> bool) -> nat
    decreases t,
{
    (if p(strip(t)) { 1nat } else { 0nat }) + count_forest(t.children, p)
}

pub open spec fn any_task() -> spec_fn(TaskView) -> bool {
    |t: TaskView| true
}

pub open spec fn done_task() -> spec_fn(TaskView) -> bool {
    |t: TaskView| t.done
}

pub open spec fn pending_task() -> spec_fn(TaskView) -> bool {
    |t: TaskView| !t.done
}

pub open spec fn pinned_pending_task() -> spec_fn(TaskView) -> bool {
    |t: TaskView| t.pinned && !t.done
}

pub proof fn lemma_count_append(a: Seq<TaskView>, b: Seq<TaskView>, p: spec_fn(TaskView) -> bool)
    ensures
        count_forest(a + b, p) == count_forest(a, p) + count_forest(b, p),
    decreases b.len(),
{
    if b.len() == 0 {
        assert(a + b =~= a);
    } else {
        lemma_count_append(a, b.drop_last(), p);
        assert((a + b).drop_last() =~= a + b.drop_last());
    }
}

pub proof fn lemma_count_elem(s: Seq<TaskView>, i: int, p: spec_fn(TaskView) -> bool)
    requires
        0 <= i < s.len(),
    ensures
        count_tree(s[i], p) <= count_forest(s, p),
        count_forest(s.take(i), p) + count_tree(s[i], p) <= count_forest(s, p),
{
    lemma_count_append(s.take(i + 1), s.skip(i + 1), p);
    assert(s =~= s.take(i + 1) + s.skip(i + 1));
    assert(s.take(i + 1).drop_last() =~= s.take(i));
}

/// Counting with `p` is the sum of counting with `q` and with `r` when every
/// task satisfies `p` exactly when it satisfies one of `q` and `r`.
pub proof fn lemma_count_split(
    s: Seq<TaskView>,
    p: spec_fn(TaskView) -> bool,
    q: spec_fn(TaskView) -> bool,
    r: spec_fn(TaskView) -> bool,
)
    requires
        forall|t: TaskView| #[trigger] p(t) == (q(t) || r(t)),
        forall|t: TaskView| !(#[trigger] q(t) && r(t)),
    ensures
        count_forest(s, p) == count_forest(s, q) + count_forest(s, r),
    decreases s,
{
    if s.len() > 0 {
        lemma_count_split(s.drop_last(), p, q, r);
        lemma_count_split(s.last().children, p, q, r);
        let x = strip(s.last());
        assert(p(x) == (q(x) || r(x)));
        assert(!(q(x) && r(x)));
        assert(count_tree(s.last(), p) == count_tree(s.last(), q) + count_tree(s.last(), r));
    }
}

/// Counting is monotone in the predicate.
pub proof fn lemma_count_mono(s: Seq<TaskView>, p: spec_fn(TaskView) -> bool, q: spec_fn(TaskView) -> bool)
    requires
        forall|t: TaskView| #[trigger] q(t) ==> p(t),
    ensures
        count_forest(s, q) <= count_forest(s, p),
    decreases s,
{
    if s.len() > 0 {
        lemma_count_mono(s.drop_last(), p, q);
        lemma_count_mono(s.last().children, p, q);
        let x = strip(s.last());
        assert(q(x) ==> p(x));
        assert(count_tree(s.last(), q) <= count_tree(s.last(), p));
    }
}

/// Which tasks a tally counts.
pub enum Tally {
    All,
    Done,
    Pending,
    PinnedPending,
}

pub open spec fn tally_pred(k: Tally) -> spec_fn(TaskView) -> bool {
    match k {
        Tally::All => any_task(),
        Tally::Done => done_task(),
        Tally::Pending => pending_task(),
        Tally::PinnedPending => pinned_pending_task(),
    }
}

impl Todo {
    fn counts_itself(&self, k: &Tally) -> (r: bool)
        ensures
            r == tally_pred(*k)(strip(self@)),
    {
        match k {
            Tally::All => true,
            Tally::Done => self.done,
            Tally::Pending => !self.done,
            Tally::PinnedPending => self.pinned && !self.done,
        }
    }

    /// Number of tasks of this tree, the root included, that the tally counts.
    pub fn tally(&self, k: &Tally) -> (r: usize)
        requires
            count_tree(self@, tally_pred(*k)) <= usize::MAX,
        ensures
            r == count_tree(self@, tally_pred(*k)),
        decreases self,
    {
        let ghost p = tally_pred(*k);
        let ghost cv = forest_view(self.children@);
        proof {
            lemma_forest_view(self.children@);
        }
        let mut acc: usize = if self.counts_itself(k) { 1 } else { 0 };
        let mut i: usize = 0;
        while i < self.children.len()
            invariant
                i <= self.children.len(),
                p == tally_pred(*k),
                cv == forest_view(self.children@),
                cv.len() == self.children@.len(),
                forall|j: int| 0 <= j < cv.len() ==> #[trigger] cv[j] == node_view(self.children@[j]),
                count_tree(self@, p) <= usize::MAX,
                acc == (if p(strip(self@)) { 1nat } else { 0nat }) + count_forest(cv.take(i as int), p),
            decreases self.children.len() - i,
        {
            proof {
                lemma_count_append(cv.take(i as int), cv.skip(i as int), p);
                assert(cv =~= cv.take(i as int) + cv.skip(i as int));
                lemma_count_append(cv.take(i as int + 1), cv.skip(i as int + 1), p);
                assert(cv =~= cv.take(i as int + 1) + cv.skip(i as int + 1));
                assert(cv.take(i as int + 1).drop_last() =~= cv.take(i as int));
            }
            let c = self.children[i].tally(k);
            acc = acc + c;
            i = i + 1;
        }
        proof {
            assert(cv.take(i as int) =~= cv);
        }
        acc
    }

    pub fn total_count(&self) -> (r: usize)
        requires
            count_tree(self@, any_task()) <= usize::MAX,
        ensures
            r == count_tree(self@, any_task()),
    {
        self.tally(&Tally::All)
    }

    pub fn pending_count(&self) -> (r: usize)
        requires
            count_tree(self@, pending_task()) <= usize::MAX,
        ensures
            r == count_tree(self@, pending_task()),
    {
        self.tally(&Tally::Pending)
    }

    pub fn done_count(&self) -> (r: usize)
        requires
            count_tree(self@, done_task()) <= usize::MAX,
        ensures
            r == count_tree(self@, done_task()),
    {
        self.tally(&Tally::Done)
    }

    pub fn pinned_count(&self) -> (r: usize)
        requires
            count_tree(self@, pinned_pending_task()) <= usize::MAX,
        ensures
            r == count_tree(self@, pinned_pending_task()),
    {
        self.tally(&Tally::PinnedPending)
    }
}

/// The first task with the given id, in depth-first order.
pub open spec fn find_forest(s: Seq<TaskView>, id: u64) -> Option<TaskView>
    decreases s,
{
    if s.len() == 0 {
        None
    } else {
        match find_forest(s.drop_last(), id) {
            Some(t) => Some(t),
            None => find_tree(s.last(), id),
        }
    }
}

/// The first task with the given id in a tree, the root checked first.
pub open spec fn find_tree(t: TaskView, id: u64) -> Option<TaskView>
    decreases t,
{
    if t.id == id {
        Some(t)
    } else {
        find_forest(t.children, id)
    }
}

/// The forest with the first task that has the given id replaced by `f` of it.
pub open spec fn update_forest(s: Seq<TaskView>, id: u64, f: spec_fn(TaskView) -> TaskView) -> Seq<TaskView>
    decreases s,
{
    if s.len() == 0 {
        s
    } else if find_forest(s.drop_last(), id) is Some {
        update_forest(s.drop_last(), id, f).push(s.last())
    } else {
        s.drop_last().push(update_tree(s.last(), id, f))
    }
}

/// The tree with its first task that has the given id replaced by `f` of it.
pub open spec fn update_tree(t: TaskView, id: u64, f: spec_fn(TaskView) -> TaskView) -> TaskView
    decreases t,
{
    if t.id == id {
        f(t)
    } else {
        TaskView { children: update_forest(t.children, id, f), ..t }
    }
}

pub proof fn lemma_update_miss(s: Seq<TaskView>, id: u64, f: spec_fn(TaskView) -> TaskView)
    requires
        find_forest(s, id) is None,
    ensures
        update_forest(s, id, f) == s,
    decreases s,
{
    if s.len() > 0 {
        assert(find_forest(s.drop_last(), id) is None);
        assert(find_tree(s.last(), id) is None);
        assert(find_forest(s.last().children, id) is None);
        lemma_update_miss(s.drop_last(), id, f);
        lemma_update_miss(s.last().children, id, f);
        assert(update_tree(s.last(), id, f) =~= s.last());
        assert(s.drop_last().push(s.last()) =~= s);
    }
}

pub proof fn lemma_find_prefix(s: Seq<TaskView>, i: int, id: u64)
    requires
        0 <= i < s.len(),
    ensures
        find_forest(s.take(i + 1), id) is None <==> (find_forest(s.take(i), id) is None
            && find_tree(s[i], id) is None),
{
    assert(s.take(i + 1).drop_last() =~= s.take(i));
}

/// When the `i`-th tree is the first that holds the id, search and update go there.
pub proof fn lemma_first_hit(s: Seq<TaskView>, i: int, id: u64, f: spec_fn(TaskView) -> TaskView)
    requires
        0 <= i < s.len(),
        find_forest(s.take(i), id) is None,
        find_tree(s[i], id) is Some,
    ensures
        find_forest(s, id) == find_tree(s[i], id),
        update_forest(s, id, f) == s.update(i, update_tree(s[i], id, f)),
    decreases s.len(),
{
    if i == s.len() - 1 {
        assert(s.drop_last() =~= s.take(i));
        assert(s.drop_last().push(update_tree(s.last(), id, f)) =~= s.update(
            i,
            update_tree(s[i], id, f),
        ));
    } else {
        assert(s.drop_last().take(i) =~= s.take(i));
        lemma_first_hit(s.drop_last(), i, id, f);
        assert(update_forest(s.drop_last(), id, f).push(s.last()) =~= s.update(
            i,
            update_tree(s[i], id, f),
        ));
    }
}

pub proof fn lemma_all_miss(s: Seq<TaskView>, id: u64)
    requires
        find_forest(s.take(s.len() as int), id) is None,
    ensures
        find_forest(s, id) is None,
{
    assert(s.take(s.len() as int) =~= s);
}

/// A task with every task of its tree marked done or not done at the given time.
pub open spec fn mark_tree(t: TaskView, done: bool, done_at: u64) -> TaskView
    decreases t,
{
    TaskView { done: done, done_at: done_at, children: mark_forest(t.children, done, done_at), ..t }
}

pub open spec fn mark_forest(s: Seq<TaskView>, done: bool, done_at: u64) -> Seq<TaskView>
    decreases s,
{
    if s.len() == 0 {
        s
    } else {
        mark_forest(s.drop_last(), done, done_at).push(mark_tree(s.last(), done, done_at))
    }
}

pub proof fn lemma_mark_forest(s: Seq<TaskView>, done: bool, done_at: u64)
    ensures
        mark_forest(s, done, done_at).len() == s.len(),
        forall|i: int|
            0 <= i < s.len() ==> #[trigger] mark_forest(s, done, done_at)[i] == mark_tree(
                s[i],
                done,
                done_at,
            ),
    decreases s.len(),
{
    if s.len() > 0 {
        lemma_mark_forest(s.drop_last(), done, done_at);
    }
}

/// A change made to one task.
pub enum Edit {
    SetPinned(bool),
    SetDueDate(u64),
    SetTag(String),
    SetText(String),
    MarkDone(bool, u64),
    AddChild(Todo),
}

pub open spec fn pinned_to(b: bool) -> spec_fn(TaskView) -> TaskView {
    |t: TaskView| TaskView { pinned: b, ..t }
}

pub open spec fn due_to(d: u64) -> spec_fn(TaskView) -> TaskView {
    |t: TaskView| TaskView { due_date: d, ..t }
}

pub open spec fn tagged_as(s: Seq<char>) -> spec_fn(TaskView) -> TaskView {
    |t: TaskView| TaskView { tag: s, ..t }
}

pub open spec fn worded_as(s: Seq<char>) -> spec_fn(TaskView) -> TaskView {
    |t: TaskView| TaskView { text: s, ..t }
}

pub open spec fn marked(d: bool, at: u64) -> spec_fn(TaskView) -> TaskView {
    |t: TaskView| mark_tree(t, d, at)
}

pub open spec fn with_child(c: TaskView) -> spec_fn(TaskView) -> TaskView {
    |t: TaskView| TaskView { children: t.children.push(c), ..t }
}

pub open spec fn edit_fn(e: Edit) -> spec_fn(TaskView) -> TaskView {
    match e {
        Edit::SetPinned(b) => pinned_to(b),
        Edit::SetDueDate(d) => due_to(d),
        Edit::SetTag(s) => tagged_as(s@),
        Edit::SetText(s) => worded_as(s@),
        Edit::MarkDone(d, at) => marked(d, at),
        Edit::AddChild(c) => with_child(c@),
    }
}

/// A task replaced by `x`, whatever it was.
pub open spec fn replaced_by(x: TaskView) -> spec_fn(TaskView) -> TaskView {
    |t: TaskView| x
}

/// Place of the first tree of the list that holds a task with the id.
pub fn first_holding(v: &Vec<Todo>, id: u64) -> (r: Option<usize>)
    ensures
        match r {
            Some(i) => i < v@.len()
                && find_forest(forest_view(v@).take(i as int), id) is None
                && find_tree(v@[i as int]@, id) is Some,
            None => find_forest(forest_view(v@), id) is None,
        },
{
    let ghost cv = forest_view(v@);
    proof {
        lemma_forest_view(v@);
    }
    let mut i: usize = 0;
    while i < v.len()
        invariant
            i <= v.len(),
            cv == forest_view(v@),
            cv.len() == v@.len(),
            forall|j: int| 0 <= j < cv.len() ==> #[trigger] cv[j] == node_view(v@[j]),
            find_forest(cv.take(i as int), id) is None,
        decreases v.len() - i,
    {
        proof {
            lemma_find_prefix(cv, i as int, id);
        }
        if v[i].find(id).is_some() {
            return Some(i);
        }
        i = i + 1;
    }
    proof {
        lemma_all_miss(cv, id);
    }
    None
}

impl Todo {
    /// The first task of this tree, in depth-first order, with the given id.
    pub fn find(&self, id: u64) -> (r: Option<&Todo>)
        ensures
            match r {
                Some(x) => find_tree(self@, id) == Some(x@),
                None => find_tree(self@, id) is None,
            },
        decreases self,
    {
        if self.id == id {
            return Some(self);
        }
        let ghost cv = forest_view(self.children@);
        proof {
            lemma_forest_view(self.children@);
        }
        let mut i: usize = 0;
        while i < self.children.len()
            invariant
                i <= self.children.len(),
                self.id != id,
                cv == forest_view(self.children@),
                cv.len() == self.children@.len(),
                forall|j: int| 0 <= j < cv.len() ==> #[trigger] cv[j] == node_view(self.children@[j]),
                find_forest(cv.take(i as int), id) is None,
            decreases self.children.len() - i,
        {
            proof {
                lemma_find_prefix(cv, i as int, id);
            }
            match self.children[i].find(id) {
                Some(x) => {
                    proof {
                        lemma_first_hit(cv, i as int, id, |t: TaskView| t);
                    }
                    return Some(x);
                },
                None => {},
            }
            i = i + 1;
        }
        proof {
            lemma_all_miss(cv, id);
        }
        None
    }

    /// The first task of this tree, in depth-first order, with the given
    /// id, to change in place: what it becomes is what the tree holds there.
    pub fn find_mut(&mut self, id: u64) -> (r: Option<&mut Todo>)
        ensures
            r is Some <==> find_tree(old(self)@, id) is Some,
            r is None ==> final(self)@ == old(self)@,
            r is Some ==> find_tree(old(self)@, id) == Some(r->0@),
            r is Some ==> final(self)@ == update_tree(old(self)@, id, replaced_by(final(r->0)@)),
        decreases *old(self),
    {
        if self.id == id {
            return Some(self);
        }
        match first_holding(&self.children, id) {
            None => {
                proof {
                    assert(old(self)@.children == forest_view(self.children@));
                }
                None
            },
            Some(i) => {
                let ghost cv = forest_view(self.children@);
                proof {
                    lemma_forest_view(self.children@);
                    lemma_first_hit(cv, i as int, id, |t: TaskView| t);
                }
                let child = &mut self.children[i];
                proof {
                    lemma_forest_view_update(old(self).children@, i as int, *final(child));
                }
                let r = child.find_mut(id);
                proof {
                    lemma_first_hit(cv, i as int, id, replaced_by(final(r->0)@));
                }
                r
            },
        }
    }

    /// Marks the task and every task below it done or not done.
    pub fn propagate_done(&mut self, done: bool, done_at: u64)
        ensures
            final(self)@ == mark_tree(old(self)@, done, done_at),
        decreases *old(self),
    {
        self.done = done;
        self.done_at = done_at;
        let ghost ov = forest_view(old(self).children@);
        proof {
            lemma_forest_view(old(self).children@);
            lemma_mark_forest(ov, done, done_at);
        }
        let mut i: usize = 0;
        while i < self.children.len()
            invariant
                i <= self.children.len(),
                self.children.len() == old(self).children.len(),
                ov == forest_view(old(self).children@),
                ov.len() == old(self).children@.len(),
                forall|j: int| 0 <= j < ov.len() ==> #[trigger] ov[j] == node_view(old(self).children@[j]),
                forall|j: int| 0 <= j < i ==> #[trigger] node_view(self.children@[j]) == mark_tree(ov[j], done, done_at),
                forall|j: int| i <= j < ov.len() ==> #[trigger] self.children@[j] == old(self).children@[j],
                self.id == old(self).id,
                self.parent_id == old(self).parent_id,
                self.depth == old(self).depth,
                self.pinned == old(self).pinned,
                self.tag == old(self).tag,
                self.text == old(self).text,
                self.created_at == old(self).created_at,
                self.due_date == old(self).due_date,
                self.done == done,
                self.done_at == done_at,
            decreases self.children.len() - i,
        {
            self.children[i].propagate_done(done, done_at);
            i = i + 1;
        }
        proof {
            lemma_forest_view(self.children@);
            assert(forest_view(self.children@) =~= mark_forest(ov, done, done_at));
        }
    }
}

impl Todo {
    fn apply_here(&mut self, e: Edit)
        ensures
            final(self)@ == edit_fn(e)(old(self)@),
    {
        match e {
            Edit::SetPinned(b) => {
                self.pinned = b;
            },
            Edit::SetDueDate(d) => {
                self.due_date = d;
            },
            Edit::SetTag(t) => {
                self.tag = t;
            },
            Edit::SetText(t) => {
                self.text = t;
            },
            Edit::MarkDone(d, at) => {
                self.propagate_done(d, at);
            },
            Edit::AddChild(c) => {
                self.children.push(c);
                proof {
                    assert(self.children@.drop_last() =~= old(self).children@);
                }
            },
        }
    }

    /// Applies the edit to the first task of this tree, in depth-first order,
    /// with the given id; false, and nothing changed, when there is none.
    pub fn apply_edit(&mut self, id: u64, e: Edit) -> (found: bool)
        ensures
            found == find_tree(old(self)@, id) is Some,
            final(self)@ == update_tree(old(self)@, id, edit_fn(e)),
        decreases *old(self),
    {
        if self.id == id {
            self.apply_here(e);
            return true;
        }
        let found = apply_edit_forest(&mut self.children, id, e);
        proof {
            assert(final(self)@ =~= update_tree(old(self)@, id, edit_fn(e)));
        }
        found
    }
}

/// Applies the edit to the first task of the forest, in depth-first order,
/// with the given id; false, and nothing changed, when there is none.
pub fn apply_edit_forest(v: &mut Vec<Todo>, id: u64, e: Edit) -> (found: bool)
    ensures
        found == find_forest(forest_view(old(v)@), id) is Some,
        forest_view(final(v)@) == update_forest(forest_view(old(v)@), id, edit_fn(e)),
    decreases old(v)@,
{
    let ghost ov = forest_view(v@);
    proof {
        lemma_forest_view(v@);
    }
    let mut i: usize = 0;
    while i < v.len()
        invariant
            i <= v.len(),
            v@ == old(v)@,
            ov == forest_view(old(v)@),
            ov.len() == old(v)@.len(),
            forall|j: int| 0 <= j < ov.len() ==> #[trigger] ov[j] == node_view(old(v)@[j]),
            find_forest(ov.take(i as int), id) is None,
        decreases v.len() - i,
    {
        proof {
            lemma_find_prefix(ov, i as int, id);
        }
        if v[i].find(id).is_some() {
            proof {
                lemma_first_hit(ov, i as int, id, edit_fn(e));
                assert(decreases_to!(old(v)@ => old(v)@[i as int]));
            }
            v[i].apply_edit(id, e);
            proof {
                lemma_forest_view(v@);
                assert(forest_view(v@) =~= ov.update(i as int, update_tree(ov[i as int], id, edit_fn(e))));
            }
            return true;
        }
        i = i + 1;
    }
    proof {
        lemma_all_miss(ov, id);
        lemma_update_miss(ov, id, edit_fn(e));
    }
    false
}

/// Three-way comparison of two numbers: -1, 0 or 1.
pub open spec fn three_way(a: u64, b: u64) -> int {
    if a < b {
        -1
    } else if a == b {
        0
    } else {
        1
    }
}

/// How soon a pending task is due: 0 once overdue, the due time when one is
/// set, and the largest value when none is.
pub open spec fn urgency(t: TaskView, now: u64) -> u64 {
    if t.due_date > 0 {
        if t.due_date < now {
            0
        } else {
            t.due_date
        }
    } else {
        u64::MAX
    }
}

/// The display order of sibling tasks: pending before done; done tasks by
/// completion time, latest first; pending tasks pinned first, then by
/// urgency, then newest first.
pub open spec fn order_of(a: TaskView, b: TaskView, now: u64) -> int {
    if a.done != b.done {
        if !a.done {
            -1
        } else {
            1
        }
    } else if a.done {
        three_way(b.done_at, a.done_at)
    } else if a.pinned != b.pinned {
        if a.pinned {
            -1
        } else {
            1
        }
    } else if urgency(a, now) != urgency(b, now) {
        three_way(urgency(a, now), urgency(b, now))
    } else {
        three_way(b.created_at, a.created_at)
    }
}

/// `x` inserted into `s` after every task that does not come after it.
pub open spec fn insert_sorted(s: Seq<TaskView>, x: TaskView, now: u64) -> Seq<TaskView>
    decreases s.len(),
{
    if s.len() == 0 {
        seq![x]
    } else if order_of(s.last(), x, now) <= 0 {
        s.push(x)
    } else {
        insert_sorted(s.drop_last(), x, now).push(s.last())
    }
}

/// The stable sort of one level of siblings by the display order.
pub open spec fn sort_level(s: Seq<TaskView>, now: u64) -> Seq<TaskView>
    decreases s.len(),
{
    if s.len() == 0 {
        s
    } else {
        insert_sorted(sort_level(s.drop_last(), now), s.last(), now)
    }
}

/// A tree with the subtasks of every task in display order.
pub open spec fn sorted_tree(t: TaskView, now: u64) -> TaskView
    decreases t,
{
    TaskView { children: sort_level(sorted_each(t.children, now), now), ..t }
}

pub open spec fn sorted_each(s: Seq<TaskView>, now: u64) -> Seq<TaskView>
    decreases s,
{
    if s.len() == 0 {
        s
    } else {
        sorted_each(s.drop_last(), now).push(sorted_tree(s.last(), now))
    }
}

/// A forest with every level in display order.
pub open spec fn sorted_forest(s: Seq<TaskView>, now: u64) -> Seq<TaskView> {
    sort_level(sorted_each(s, now), now)
}

pub proof fn lemma_sorted_each(s: Seq<TaskView>, now: u64)
    ensures
        sorted_each(s, now).len() == s.len(),
        forall|i: int| 0 <= i < s.len() ==> #[trigger] sorted_each(s, now)[i] == sorted_tree(s[i], now),
    decreases s.len(),
{
    if s.len() > 0 {
        lemma_sorted_each(s.drop_last(), now);
    }
}

/// Inserting at the position found by scanning back is the sorted insertion.
pub proof fn lemma_insert_pos(s: Seq<TaskView>, x: TaskView, k: int, now: u64)
    requires
        0 <= k <= s.len(),
        forall|j: int| k <= j < s.len() ==> order_of(#[trigger] s[j], x, now) > 0,
        k == 0 || order_of(s[k - 1], x, now) <= 0,
    ensures
        insert_sorted(s, x, now) == s.insert(k, x),
    decreases s.len(),
{
    if s.len() == 0 {
        assert(s.insert(k, x) =~= seq![x]);
    } else if k == s.len() {
        assert(s.insert(k, x) =~= s.push(x));
    } else {
        assert(order_of(s[s.len() - 1], x, now) > 0);
        lemma_insert_pos(s.drop_last(), x, k, now);
        assert(s.drop_last().insert(k, x).push(s.last()) =~= s.insert(k, x));
    }
}

pub proof fn lemma_forest_view_insert(v: Seq<Todo>, k: int, t: Todo)
    requires
        0 <= k <= v.len(),
    ensures
        forest_view(v.insert(k, t)) == forest_view(v).insert(k, node_view(t)),
{
    lemma_forest_view(v);
    lemma_forest_view(v.insert(k, t));
    assert(forest_view(v.insert(k, t)) =~= forest_view(v).insert(k, node_view(t)));
}

fn three_way_num(a: u64, b: u64) -> (r: i8)
    ensures
        r == three_way(a, b),
{
    if a < b {
        -1
    } else if a == b {
        0
    } else {
        1
    }
}

fn urgency_of(t: &Todo, now: u64) -> (r: u64)
    ensures
        r == urgency(t@, now),
{
    if t.due_date > 0 {
        if t.due_date < now {
            0
        } else {
            t.due_date
        }
    } else {
        u64::MAX
    }
}

/// Compares two tasks by the display order.
pub fn compare_tasks(a: &Todo, b: &Todo, now: u64) -> (r: i8)
    ensures
        r == order_of(a@, b@, now),
{
    if a.done != b.done {
        if !a.done {
            -1
        } else {
            1
        }
    } else if a.done {
        three_way_num(b.done_at, a.done_at)
    } else if a.pinned != b.pinned {
        if a.pinned {
            -1
        } else {
            1
        }
    } else {
        let ua = urgency_of(a, now);
        let ub = urgency_of(b, now);
        if ua != ub {
            three_way_num(ua, ub)
        } else {
            three_way_num(b.created_at, a.created_at)
        }
    }
}

/// Sorts every level of the forest by the display order, stably.
#[verifier::loop_isolation(false)]
pub fn sort_forest(v: Vec<Todo>, now: u64) -> (r: Vec<Todo>)
    ensures
        forest_view(r@) == sorted_forest(forest_view(v@), now),
    decreases v@,
{
    let ghost v0 = v@;
    let ghost fv = forest_view(v0);
    let ghost se = sorted_each(fv, now);
    proof {
        lemma_forest_view(v0);
        lemma_sorted_each(fv, now);
    }
    let mut rest = v;
    let mut sorted: Vec<Todo> = Vec::new();
    let n = rest.len();
    let mut i: usize = 0;
    while i < n
        invariant
            n == v0.len(),
            i <= n,
            rest@ == v0.skip(i as int),
            fv == forest_view(v0),
            fv.len() == v0.len(),
            forall|j: int| 0 <= j < fv.len() ==> #[trigger] fv[j] == node_view(v0[j]),
            se == sorted_each(fv, now),
            se.len() == fv.len(),
            forall|j: int| 0 <= j < fv.len() ==> #[trigger] se[j] == sorted_tree(fv[j], now),
            forest_view(sorted@) == sort_level(se.take(i as int), now),
        decreases n - i,
    {
        let x = rest.remove(0);
        proof {
            assert(x == v0[i as int]);
            assert(decreases_to!(v0 => v0[i as int]));
            assert(decreases_to!(v0 => x));
        }
        let y = x.sorted_at(now);
        proof {
            lemma_forest_view(sorted@);
        }
        let mut k: usize = sorted.len();
        while k > 0 && compare_tasks(&sorted[k - 1], &y, now) > 0
            invariant
                k <= sorted.len(),
                forest_view(sorted@).len() == sorted@.len(),
                forall|j: int| 0 <= j < sorted@.len() ==> #[trigger] forest_view(sorted@)[j] == node_view(sorted@[j]),
                forall|j: int| k <= j < sorted@.len() ==> order_of(#[trigger] forest_view(sorted@)[j], y@, now) > 0,
            decreases k,
        {
            k = k - 1;
        }
        proof {
            lemma_insert_pos(forest_view(sorted@), y@, k as int, now);
            lemma_forest_view_insert(sorted@, k as int, y);
            assert(se.take(i as int + 1).drop_last() =~= se.take(i as int));
            assert(rest@ =~= v0.skip(i as int + 1));
        }
        sorted.insert(k, y);
        i = i + 1;
    }
    proof {
        assert(se.take(n as int) =~= se);
    }
    sorted
}

impl Todo {
    /// The task with the subtasks of every task in display order.
    pub fn sorted_at(self, now: u64) -> (r: Todo)
        ensures
            r@ == sorted_tree(self@, now),
        decreases self,
    {
        let Todo {
            id,
            parent_id,
            depth,
            done,
            pinned,
            tag,
            text,
            created_at,
            done_at,
            due_date,
            children,
        } = self;
        let children = sort_forest(children, now);
        Todo {
            id,
            parent_id,
            depth,
            done,
            pinned,
            tag,
            text,
            created_at,
            done_at,
            due_date,
            children,
        }
    }
}

/// Siblings in display order.
pub open spec fn level_sorted(s: Seq<TaskView>, now: u64) -> bool {
    forall|i: int, j: int| 0 <= i < j < s.len() ==> order_of(#[trigger] s[i], #[trigger] s[j], now) <= 0
}

/// Every level of the forest in display order.
pub open spec fn deep_sorted(s: Seq<TaskView>, now: u64) -> bool
    decreases s,
{
    &&& level_sorted(s, now)
    &&& forall|i: int| 0 <= i < s.len() ==> deep_sorted(#[trigger] s[i].children, now)
}

pub proof fn lemma_order_total(a: TaskView, b: TaskView, c: TaskView, now: u64)
    ensures
        order_of(a, b, now) <= 0 && order_of(b, c, now) <= 0 ==> order_of(a, c, now) <= 0,
        order_of(a, b, now) > 0 ==> order_of(b, a, now) < 0,
        -1 <= order_of(a, b, now) <= 1,
{
}

pub proof fn lemma_insert_sorted_count(s: Seq<TaskView>, x: TaskView, p: spec_fn(TaskView) -> bool, now: u64)
    ensures
        count_forest(insert_sorted(s, x, now), p) == count_forest(s, p) + count_tree(x, p),
    decreases s.len(),
{
    if s.len() == 0 {
        assert(seq![x].drop_last() =~= s);
    } else if order_of(s.last(), x, now) <= 0 {
        assert(s.push(x).drop_last() =~= s);
    } else {
        lemma_insert_sorted_count(s.drop_last(), x, p, now);
        let r = insert_sorted(s.drop_last(), x, now);
        assert(r.push(s.last()).drop_last() =~= r);
    }
}

pub proof fn lemma_sort_level_count(s: Seq<TaskView>, p: spec_fn(TaskView) -> bool, now: u64)
    ensures
        count_forest(sort_level(s, now), p) == count_forest(s, p),
    decreases s.len(),
{
    if s.len() > 0 {
        lemma_sort_level_count(s.drop_last(), p, now);
        lemma_insert_sorted_count(sort_level(s.drop_last(), now), s.last(), p, now);
    }
}

pub proof fn lemma_sorted_each_count(s: Seq<TaskView>, p: spec_fn(TaskView) -> bool, now: u64)
    ensures
        count_forest(sorted_each(s, now), p) == count_forest(s, p),
    decreases s,
{
    if s.len() > 0 {
        let t = s.last();
        lemma_sorted_each_count(s.drop_last(), p, now);
        lemma_sorted_each_count(t.children, p, now);
        lemma_sort_level_count(sorted_each(t.children, now), p, now);
        assert(strip(sorted_tree(t, now)) =~= strip(t));
        assert(sorted_each(s, now).drop_last() =~= sorted_each(s.drop_last(), now));
        assert(count_tree(sorted_tree(t, now), p) == count_tree(t, p));
    }
}

/// Law: putting every level in display order neither adds nor loses tasks:
/// for every property of a task, as many tasks have it before as after.
pub proof fn law_sort_keeps_tasks(s: Seq<TaskView>, p: spec_fn(TaskView) -> bool, now: u64)
    ensures
        count_forest(sorted_forest(s, now), p) == count_forest(s, p),
{
    lemma_sorted_each_count(s, p, now);
    lemma_sort_level_count(sorted_each(s, now), p, now);
}

pub proof fn lemma_insert_sorted_elems(s: Seq<TaskView>, x: TaskView, now: u64)
    ensures
        insert_sorted(s, x, now).len() == s.len() + 1,
        forall|i: int|
            0 <= i < s.len() + 1 ==> #[trigger] insert_sorted(s, x, now)[i] == x || s.contains(
                insert_sorted(s, x, now)[i],
            ),
        level_sorted(s, now) ==> level_sorted(insert_sorted(s, x, now), now),
    decreases s.len(),
{
    if s.len() == 0 {
    } else if order_of(s.last(), x, now) <= 0 {
        let r = s.push(x);
        assert forall|i: int| 0 <= i < s.len() + 1 implies #[trigger] r[i] == x || s.contains(r[i]) by {
            if i < s.len() {
                assert(s[i] == r[i]);
            }
        }
        if level_sorted(s, now) {
            assert forall|i: int, j: int| 0 <= i < j < r.len() implies order_of(#[trigger] r[i], #[trigger] r[j], now) <= 0 by {
                if j == s.len() {
                    if i < s.len() - 1 {
                        lemma_order_total(s[i], s.last(), x, now);
                    }
                }
            }
        }
    } else {
        let d = s.drop_last();
        lemma_insert_sorted_elems(d, x, now);
        let m = insert_sorted(d, x, now);
        let r = m.push(s.last());
        assert forall|i: int| 0 <= i < s.len() + 1 implies #[trigger] r[i] == x || s.contains(r[i]) by {
            if i < m.len() {
                assert(m[i] == x || d.contains(m[i]));
                if m[i] != x {
                    let k = choose|k: int| 0 <= k < d.len() && d[k] == m[i];
                    assert(s[k] == m[i]);
                }
            } else {
                assert(s[s.len() - 1] == r[i]);
            }
        }
        if level_sorted(s, now) {
            assert(level_sorted(d, now));
            assert forall|i: int, j: int| 0 <= i < j < r.len() implies order_of(#[trigger] r[i], #[trigger] r[j], now) <= 0 by {
                if j == m.len() {
                    if m[i] == x {
                        lemma_order_total(s.last(), x, x, now);
                    } else {
                        let k = choose|k: int| 0 <= k < d.len() && d[k] == m[i];
                        assert(s[k] == m[i]);
                        assert(order_of(s[k], s[s.len() - 1], now) <= 0);
                    }
                }
            }
        }
    }
}

pub proof fn lemma_sort_level_elems(s: Seq<TaskView>, now: u64)
    ensures
        sort_level(s, now).len() == s.len(),
        forall|i: int| 0 <= i < s.len() ==> s.contains(#[trigger] sort_level(s, now)[i]),
        level_sorted(sort_level(s, now), now),
    decreases s.len(),
{
    if s.len() > 0 {
        let d = s.drop_last();
        lemma_sort_level_elems(d, now);
        let m = sort_level(d, now);
        lemma_insert_sorted_elems(m, s.last(), now);
        let r = insert_sorted(m, s.last(), now);
        assert forall|i: int| 0 <= i < s.len() implies s.contains(#[trigger] r[i]) by {
            if r[i] == s.last() {
                assert(s[s.len() - 1] == r[i]);
            } else {
                assert(m.contains(r[i]));
                let k = choose|k: int| 0 <= k < m.len() && m[k] == r[i];
                assert(d.contains(m[k]));
                let k2 = choose|k2: int| 0 <= k2 < d.len() && d[k2] == m[k];
                assert(s[k2] == r[i]);
            }
        }
    }
}

pub proof fn lemma_sorted_each_deep(s: Seq<TaskView>, now: u64)
    ensures
        forall|i: int| 0 <= i < s.len() ==> deep_sorted(#[trigger] sorted_each(s, now)[i].children, now),
    decreases s,
{
    lemma_sorted_each(s, now);
    if s.len() > 0 {
        lemma_sorted_each_deep(s.drop_last(), now);
        let t = s.last();
        lemma_sorted_each_deep(t.children, now);
        lemma_sorted_each(t.children, now);
        let e = sorted_each(t.children, now);
        lemma_sort_level_elems(e, now);
        let c = sort_level(e, now);
        assert forall|i: int| 0 <= i < c.len() implies deep_sorted(#[trigger] c[i].children, now) by {
            assert(e.contains(c[i]));
            let k = choose|k: int| 0 <= k < e.len() && e[k] == c[i];
            assert(deep_sorted(e[k].children, now));
        }
        assert(deep_sorted(c, now));
        assert forall|i: int| 0 <= i < s.len() implies deep_sorted(#[trigger] sorted_each(s, now)[i].children, now) by {
            if i < s.len() - 1 {
                assert(sorted_each(s, now)[i] == sorted_each(s.drop_last(), now)[i]);
            }
        }
    }
}

/// Law: after sorting, every level of the forest is in display order.
pub proof fn law_sort_orders(s: Seq<TaskView>, now: u64)
    ensures
        deep_sorted(sorted_forest(s, now), now),
{
    lemma_sorted_each_deep(s, now);
    lemma_sorted_each(s, now);
    let e = sorted_each(s, now);
    lemma_sort_level_elems(e, now);
    let c = sort_level(e, now);
    assert forall|i: int| 0 <= i < c.len() implies deep_sorted(#[trigger] c[i].children, now) by {
        assert(e.contains(c[i]));
        let k = choose|k: int| 0 <= k < e.len() && e[k] == c[i];
        assert(deep_sorted(e[k].children, now));
    }
}

/// Law: of two pending tasks that are both pinned or both not, and both
/// due at `now` or later, the one due sooner goes first.
pub proof fn law_sooner_due_first(a: TaskView, b: TaskView, now: u64)
    requires
        !a.done,
        !b.done,
        a.pinned == b.pinned,
        0 < a.due_date,
        now <= a.due_date,
        a.due_date < b.due_date,
    ensures
        order_of(a, b, now) < 0,
        order_of(b, a, now) > 0,
{
}

/// Law: the display order puts pending tasks before done ones; among done
/// tasks the later done first; among pending tasks the pinned first, then
/// an overdue task before one that is not, then, when equally urgent, the
/// newer first.
pub proof fn law_order_rules(a: TaskView, b: TaskView, now: u64)
    ensures
        !a.done && b.done ==> order_of(a, b, now) < 0,
        a.done && b.done && a.done_at > b.done_at ==> order_of(a, b, now) < 0,
        !a.done && !b.done && a.pinned && !b.pinned ==> order_of(a, b, now) < 0,
        !a.done && !b.done && a.pinned == b.pinned && 0 < a.due_date < now && !(0 < b.due_date < now)
            ==> order_of(a, b, now) < 0,
        !a.done && !b.done && a.pinned == b.pinned && a.due_date == b.due_date && a.created_at > b.created_at
            ==> order_of(a, b, now) < 0,
{
}

/// Law: after sorting, on each level, no done task comes before a pending
/// one, and no pending task that is not pinned comes before a pinned one.
pub proof fn law_sorted_groups(s: Seq<TaskView>, now: u64, i: int, j: int)
    requires
        0 <= i < j < sorted_forest(s, now).len(),
    ensures
        !(sorted_forest(s, now)[i].done && !sorted_forest(s, now)[j].done),
        !sorted_forest(s, now)[i].done && !sorted_forest(s, now)[j].done
            ==> !(!sorted_forest(s, now)[i].pinned && sorted_forest(s, now)[j].pinned),
{
    let r = sorted_forest(s, now);
    law_sort_orders(s, now);
    assert(level_sorted(r, now));
    assert(order_of(r[i], r[j], now) <= 0);
    law_order_rules(r[j], r[i], now);
}

/// Law: after sorting, of two pending tasks on the same level that are
/// both pinned or both not and both due at `now` or later, the earlier one
/// is not due after the later one.
pub proof fn law_sorted_by_due_date(s: Seq<TaskView>, now: u64, i: int, j: int)
    requires
        0 <= i < j < sorted_forest(s, now).len(),
        !sorted_forest(s, now)[i].done,
        !sorted_forest(s, now)[j].done,
        sorted_forest(s, now)[i].pinned == sorted_forest(s, now)[j].pinned,
        0 < sorted_forest(s, now)[i].due_date,
        0 < sorted_forest(s, now)[j].due_date,
        now <= sorted_forest(s, now)[i].due_date,
        now <= sorted_forest(s, now)[j].due_date,
    ensures
        sorted_forest(s, now)[i].due_date <= sorted_forest(s, now)[j].due_date,
{
    let r = sorted_forest(s, now);
    law_sort_orders(s, now);
    assert(level_sorted(r, now));
    assert(order_of(r[i], r[j], now) <= 0);
    if r[j].due_date < r[i].due_date {
        law_sooner_due_first(r[j], r[i], now);
    }
}

/// A level already in display order is left as it is by the stable sort.
pub proof fn lemma_sort_level_sorted(s: Seq<TaskView>, now: u64)
    requires
        level_sorted(s, now),
    ensures
        sort_level(s, now) == s,
    decreases s.len(),
{
    if s.len() > 0 {
        let d = s.drop_last();
        assert(level_sorted(d, now)) by {
            assert forall|i: int, j: int| 0 <= i < j < d.len() implies order_of(#[trigger] d[i], #[trigger] d[j], now) <= 0 by {
                assert(d[i] == s[i] && d[j] == s[j]);
            }
        }
        lemma_sort_level_sorted(d, now);
        if d.len() > 0 {
            assert(d.last() == s[s.len() - 2]);
            assert(order_of(s[s.len() - 2], s[s.len() - 1], now) <= 0);
        }
        assert(d.push(s.last()) =~= s);
    }
}

/// A forest with every level already in display order is left as it is by
/// sorting its subtasks.
pub proof fn lemma_sorted_each_sorted(s: Seq<TaskView>, now: u64)
    requires
        deep_sorted(s, now),
    ensures
        sorted_each(s, now) == s,
    decreases s,
{
    if s.len() > 0 {
        let d = s.drop_last();
        let t = s.last();
        assert(deep_sorted(d, now)) by {
            assert forall|i: int, j: int| 0 <= i < j < d.len() implies order_of(#[trigger] d[i], #[trigger] d[j], now) <= 0 by {
                assert(d[i] == s[i] && d[j] == s[j]);
            }
            assert forall|i: int| 0 <= i < d.len() implies deep_sorted(#[trigger] d[i].children, now) by {
                assert(d[i] == s[i]);
            }
        }
        lemma_sorted_each_sorted(d, now);
        assert(deep_sorted(s[s.len() - 1].children, now));
        assert(deep_sorted(t.children, now));
        lemma_sorted_each_sorted(t.children, now);
        lemma_sort_level_sorted(t.children, now);
        assert(sorted_tree(t, now) == t);
        assert(d.push(t) =~= s);
    }
}

/// Law: sorting a list that is already sorted, at the same time, changes
/// nothing: sorting twice is sorting once.
pub proof fn law_sort_twice(s: Seq<TaskView>, now: u64)
    ensures
        sorted_forest(sorted_forest(s, now), now) == sorted_forest(s, now),
{
    let r = sorted_forest(s, now);
    law_sort_orders(s, now);
    lemma_sorted_each_sorted(r, now);
    lemma_sort_level_sorted(r, now);
}

/// Law: sorting a task's subtasks twice at the same time is sorting them
/// once, and sorting never changes the task's own fields.
pub proof fn law_sort_tree_twice(t: TaskView, now: u64)
    ensures
        sorted_tree(sorted_tree(t, now), now) == sorted_tree(t, now),
        strip(sorted_tree(t, now)) == strip(t),
{
    law_sort_twice(t.children, now);
    let u = sorted_tree(t, now);
    assert(u.children == sorted_forest(t.children, now));
}

/// Seconds since the Unix epoch by the system clock (0 when the clock is set
/// before the epoch). Nothing is promised of the value: it is the time.
#[verifier::external_body]
pub fn now_secs() -> u64 {
    match SystemTime::now().duration_since(UNIX_EPOCH) {
        Ok(d) => d.as_secs(),
        Err(_) => 0,
    }
}

/// Calls `rand::random::<u64>()`: a value from the thread-local generator, of
/// which nothing is promised.
#[verifier::external_body]
fn random_u64() -> u64 {
    rand::random::<u64>()
}

/// A new task id: the current time mixed with a random number.
pub fn generate_id() -> u64 {
    let now = now_secs();
    let random = random_u64();
    now ^ random
}

/// The model of a new top-level task.
pub open spec fn fresh_task(text: Seq<char>, tag: Seq<char>, id: u64, created_at: u64) -> TaskView {
    TaskView {
        id: id,
        parent_id: None,
        depth: 0,
        done: false,
        pinned: false,
        tag: tag,
        text: text,
        created_at: created_at,
        done_at: 0,
        due_date: 0,
        children: Seq::empty(),
    }
}

/// The model of a new subtask.
pub open spec fn fresh_subtask(
    text: Seq<char>,
    tag: Seq<char>,
    parent_id: u64,
    depth: usize,
    id: u64,
    created_at: u64,
) -> TaskView {
    TaskView { parent_id: Some(parent_id), depth: depth, ..fresh_task(text, tag, id, created_at) }
}

impl Todo {
    /// A new pending, unpinned top-level task with the given id and creation time.
    pub fn with_id(text: &str, tag: &str, id: u64, created_at: u64) -> (r: Todo)
        ensures
            r@ == fresh_task(text@, tag@, id, created_at),
    {
        let r = Todo {
            id,
            parent_id: None,
            depth: 0,
            done: false,
            pinned: false,
            tag: String::from_str(tag),
            text: String::from_str(text),
            created_at,
            done_at: 0,
            due_date: 0,
            children: Vec::new(),
        };
        proof {
            assert(forest_view(r.children@) =~= Seq::<TaskView>::empty());
        }
        r
    }

    /// A new pending, unpinned top-level task with a fresh id, created now.
    pub fn new(text: &str, tag: &str) -> (r: Todo)
        ensures
            r@ == fresh_task(text@, tag@, r.id, r.created_at),
    {
        let id = generate_id();
        let created_at = now_secs();
        Todo::with_id(text, tag, id, created_at)
    }

    /// A new pending, unpinned subtask with the given id and creation time.
    pub fn subtask_with_id(
        text: &str,
        tag: &str,
        parent_id: u64,
        parent_depth: usize,
        id: u64,
        created_at: u64,
    ) -> (r: Todo)
        requires
            parent_depth < usize::MAX,
        ensures
            r@ == fresh_subtask(text@, tag@, parent_id, (parent_depth + 1) as usize, id, created_at),
    {
        let mut subtask = Todo::with_id(text, tag, id, created_at);
        subtask.parent_id = Some(parent_id);
        subtask.depth = parent_depth + 1;
        subtask
    }

    /// A new subtask one level below its parent.
    pub fn new_subtask(text: &str, tag: &str, parent_id: u64, parent_depth: usize) -> (r: Todo)
        requires
            parent_depth < usize::MAX,
        ensures
            r@ == fresh_subtask(text@, tag@, parent_id, (parent_depth + 1) as usize, r.id, r.created_at),
    {
        let mut subtask = Todo::new(text, tag);
        subtask.parent_id = Some(parent_id);
        subtask.depth = parent_depth + 1;
        subtask
    }

    /// Puts the subtasks of every task of this tree in display order, as of now.
    pub fn sort(&mut self)
        ensures
            (exists|now: u64| final(self)@ == #[trigger] sorted_tree(old(self)@, now)),
    {
        let now = now_secs();
        let mut children: Vec<Todo> = Vec::new();
        std::mem::swap(&mut children, &mut self.children);
        self.children = sort_forest(children, now);
        proof {
            assert(final(self)@ =~= sorted_tree(old(self)@, now));
        }
    }
}

/// Number of levels below the root of a tree.
pub open spec fn tree_height(t: TaskView) -> nat
    decreases t,
{
    if t.children.len() == 0 {
        0
    } else {
        1 + forest_height(t.children)
    }
}

/// The largest height of the trees of a forest.
pub open spec fn forest_height(s: Seq<TaskView>) -> nat
    decreases s,
{
    if s.len() == 0 {
        0
    } else {
        let a = forest_height(s.drop_last());
        let b = tree_height(s.last());
        if a < b {
            b
        } else {
            a
        }
    }
}

pub proof fn lemma_forest_height(s: Seq<TaskView>)
    ensures
        forall|i: int| 0 <= i < s.len() ==> tree_height(#[trigger] s[i]) <= forest_height(s),
    decreases s.len(),
{
    if s.len() > 0 {
        lemma_forest_height(s.drop_last());
        assert forall|i: int| 0 <= i < s.len() implies tree_height(#[trigger] s[i]) <= forest_height(s) by {
            if i < s.len() - 1 {
                assert(s[i] == s.drop_last()[i]);
            }
        }
    }
}

/// A tree whose root sits at depth `d` and each task one level below its parent.
pub open spec fn with_depth(t: TaskView, d: nat) -> TaskView
    decreases t,
{
    TaskView { depth: d as usize, children: with_depth_each(t.children, d + 1), ..t }
}

pub open spec fn with_depth_each(s: Seq<TaskView>, d: nat) -> Seq<TaskView>
    decreases s,
{
    if s.len() == 0 {
        s
    } else {
        with_depth_each(s.drop_last(), d).push(with_depth(s.last(), d))
    }
}

pub proof fn lemma_with_depth_each(s: Seq<TaskView>, d: nat)
    ensures
        with_depth_each(s, d).len() == s.len(),
        forall|i: int| 0 <= i < s.len() ==> #[trigger] with_depth_each(s, d)[i] == with_depth(s[i], d),
    decreases s.len(),
{
    if s.len() > 0 {
        lemma_with_depth_each(s.drop_last(), d);
    }
}

impl Todo {
    /// Sets the depth of the task to `current_depth` and of every task below
    /// it to one more than its parent's.
    pub fn rebuild_depth(&mut self, current_depth: usize)
        requires
            current_depth + tree_height(old(self)@) <= usize::MAX,
        ensures
            final(self)@ == with_depth(old(self)@, current_depth as nat),
        decreases *old(self),
    {
        self.depth = current_depth;
        let ghost ov = forest_view(old(self).children@);
        proof {
            lemma_forest_view(old(self).children@);
            lemma_with_depth_each(ov, current_depth as nat + 1);
            lemma_forest_height(ov);
        }
        let mut i: usize = 0;
        while i < self.children.len()
            invariant
                i <= self.children.len(),
                self.children.len() == old(self).children.len(),
                ov == forest_view(old(self).children@),
                ov.len() == old(self).children@.len(),
                forall|j: int| 0 <= j < ov.len() ==> #[trigger] ov[j] == node_view(old(self).children@[j]),
                forall|j: int| 0 <= j < ov.len() ==> tree_height(#[trigger] ov[j]) <= forest_height(ov),
                ov.len() > 0 ==> tree_height(old(self)@) == 1 + forest_height(ov),
                current_depth + tree_height(old(self)@) <= usize::MAX,
                forall|j: int| 0 <= j < i ==> #[trigger] node_view(self.children@[j]) == with_depth(ov[j], current_depth as nat + 1),
                forall|j: int| i <= j < ov.len() ==> #[trigger] self.children@[j] == old(self).children@[j],
                self.id == old(self).id,
                self.parent_id == old(self).parent_id,
                self.done == old(self).done,
                self.pinned == old(self).pinned,
                self.tag == old(self).tag,
                self.text == old(self).text,
                self.created_at == old(self).created_at,
                self.done_at == old(self).done_at,
                self.due_date == old(self).due_date,
                self.depth == current_depth,
            decreases self.children.len() - i,
        {
            proof {
                assert(tree_height(ov[i as int]) <= forest_height(ov));
            }
            self.children[i].rebuild_depth(current_depth + 1);
            i = i + 1;
        }
        proof {
            lemma_forest_view(self.children@);
            assert(forest_view(self.children@) =~= with_depth_each(ov, current_depth as nat + 1));
        }
    }
}

/// The first task of the forest, in depth-first order, with the given id.
pub fn find_in_forest(v: &Vec<Todo>, id: u64) -> (r: Option<&Todo>)
    ensures
        match r {
            Some(x) => find_forest(forest_view(v@), id) == Some(x@),
            None => find_forest(forest_view(v@), id) is None,
        },
{
    let ghost fv = forest_view(v@);
    proof {
        lemma_forest_view(v@);
    }
    let mut i: usize = 0;
    while i < v.len()
        invariant
            i <= v.len(),
            fv == forest_view(v@),
            fv.len() == v@.len(),
            forall|j: int| 0 <= j < fv.len() ==> #[trigger] fv[j] == node_view(v@[j]),
            find_forest(fv.take(i as int), id) is None,
        decreases v.len() - i,
    {
        proof {
            lemma_find_prefix(fv, i as int, id);
        }
        match v[i].find(id) {
            Some(x) => {
                proof {
                    lemma_first_hit(fv, i as int, id, |t: TaskView| t);
                }
                return Some(x);
            },
            None => {},
        }
        i = i + 1;
    }
    proof {
        lemma_all_miss(fv, id);
    }
    None
}

/// Tasks carrying exactly this tag.
pub open spec fn has_tag(tag: Seq<char>) -> spec_fn(TaskView) -> bool {
    |t: TaskView| t.tag == tag
}

/// A list of (tag, count) entries with distinct, non-empty tags and positive counts.
pub open spec fn tag_list_ok(v: Seq<(String, usize)>) -> bool {
    &&& forall|i: int, j: int| 0 <= i < j < v.len() ==> (#[trigger] v[i]).0@ != (#[trigger] v[j]).0@
    &&& forall|i: int| 0 <= i < v.len() ==> (#[trigger] v[i]).0@.len() > 0 && v[i].1 > 0
}

/// The count a tag list records for a tag, 0 when it has no entry for it.
pub open spec fn listed_count(v: Seq<(String, usize)>, tag: Seq<char>) -> nat {
    if exists|i: int| 0 <= i < v.len() && (#[trigger] v[i]).0@ == tag {
        v[choose|i: int| 0 <= i < v.len() && (#[trigger] v[i]).0@ == tag].1 as nat
    } else {
        0
    }
}

pub proof fn lemma_listed_at(v: Seq<(String, usize)>, i: int)
    requires
        tag_list_ok(v),
        0 <= i < v.len(),
    ensures
        listed_count(v, v[i].0@) == v[i].1,
{
    let tag = v[i].0@;
    assert(v[i].0@ == tag);
    let k = choose|k: int| 0 <= k < v.len() && (#[trigger] v[k]).0@ == tag;
    if k != i {
        if k < i {
            assert(v[k].0@ != v[i].0@);
        } else {
            assert(v[i].0@ != v[k].0@);
        }
    }
}

fn find_tag(counts: &Vec<(String, usize)>, tag: &String) -> (r: Option<usize>)
    ensures
        match r {
            Some(i) => i < counts@.len() && counts@[i as int].0@ == tag@,
            None => forall|i: int| 0 <= i < counts@.len() ==> (#[trigger] counts@[i]).0@ != tag@,
        },
{
    let mut i: usize = 0;
    while i < counts.len()
        invariant
            i <= counts.len(),
            forall|j: int| 0 <= j < i ==> (#[trigger] counts@[j]).0@ != tag@,
        decreases counts.len() - i,
    {
        if counts[i].0 == *tag {
            return Some(i);
        }
        i = i + 1;
    }
    None
}

/// Counts one more task with the tag.
fn bump_tag(counts: &mut Vec<(String, usize)>, tag: &String)
    requires
        tag_list_ok(old(counts)@),
        tag@.len() > 0,
        listed_count(old(counts)@, tag@) < usize::MAX,
    ensures
        tag_list_ok(final(counts)@),
        forall|t: Seq<char>| #[trigger] listed_count(final(counts)@, t) == listed_count(old(counts)@, t) + (if t == tag@ { 1nat } else { 0nat }),
{
    let ghost v = counts@;
    match find_tag(counts, tag) {
        Some(i) => {
            proof {
                lemma_listed_at(v, i as int);
            }
            let c = counts[i].1;
            let k = counts[i].0.clone();
            counts.set(i, (k, c + 1));
            let ghost w = counts@;
            proof {
                assert(tag_list_ok(w)) by {
                    assert forall|a: int, b: int| 0 <= a < b < w.len() implies (#[trigger] w[a]).0@ != (#[trigger] w[b]).0@ by {
                        assert(v[a].0@ != v[b].0@);
                    }
                }
                assert forall|t: Seq<char>| #[trigger] listed_count(w, t) == listed_count(v, t) + (if t == tag@ { 1nat } else { 0nat }) by {
                    if t == tag@ {
                        lemma_listed_at(w, i as int);
                    } else {
                        if exists|j: int| 0 <= j < v.len() && (#[trigger] v[j]).0@ == t {
                            let j = choose|j: int| 0 <= j < v.len() && (#[trigger] v[j]).0@ == t;
                            lemma_listed_at(v, j);
                            lemma_listed_at(w, j);
                            assert(w[j].0@ == t);
                        } else {
                            assert forall|j: int| 0 <= j < w.len() implies (#[trigger] w[j]).0@ != t by {
                                assert(v[j].0@ != t);
                            }
                        }
                    }
                }
            }
        },
        None => {
            counts.push((tag.clone(), 1));
            let ghost w = counts@;
            proof {
                assert forall|t: Seq<char>| #[trigger] listed_count(w, t) == listed_count(v, t) + (if t == tag@ { 1nat } else { 0nat }) by {
                    if t == tag@ {
                        lemma_listed_at(w, v.len() as int);
                        assert forall|j: int| 0 <= j < v.len() implies (#[trigger] v[j]).0@ != t by {
                            assert(v[j].0@ != tag@);
                        }
                    } else {
                        if exists|j: int| 0 <= j < v.len() && (#[trigger] v[j]).0@ == t {
                            let j = choose|j: int| 0 <= j < v.len() && (#[trigger] v[j]).0@ == t;
                            lemma_listed_at(v, j);
                            lemma_listed_at(w, j);
                            assert(w[j].0@ == t);
                        } else {
                            assert forall|j: int| 0 <= j < w.len() implies (#[trigger] w[j]).0@ != t by {
                                if j < v.len() {
                                    assert(v[j].0@ != t);
                                }
                            }
                        }
                    }
                }
            }
        },
    }
}

impl Todo {
    /// Adds to `counts` one for every task of this tree, the root included,
    /// that carries a non-empty tag.
    pub fn collect_tags(&self, counts: &mut Vec<(String, usize)>)
        requires
            tag_list_ok(old(counts)@),
            forall|t: Seq<char>| listed_count(old(counts)@, t) + count_tree(self@, #[trigger] has_tag(t)) <= usize::MAX,
        ensures
            tag_list_ok(final(counts)@),
            forall|t: Seq<char>| #[trigger] listed_count(final(counts)@, t) == listed_count(old(counts)@, t) + (if t.len() > 0 { count_tree(self@, has_tag(t)) } else { 0 }),
        decreases self,
    {
        let ghost c0 = counts@;
        let ghost cv = forest_view(self.children@);
        proof {
            lemma_forest_view(self.children@);
        }
        if !self.tag.as_str().is_empty() {
            proof {
                assert(listed_count(c0, self.tag@) + count_tree(self@, has_tag(self.tag@)) <= usize::MAX);
                assert(has_tag(self.tag@)(strip(self@)));
            }
            bump_tag(counts, &self.tag);
        }
        let ghost c1 = counts@;
        proof {
            assert forall|t: Seq<char>| #[trigger] listed_count(c1, t) == listed_count(c0, t) + (if t.len() > 0 && has_tag(t)(strip(self@)) { 1nat } else { 0nat }) by {
                if self.tag@.len() == 0 {
                    if t.len() > 0 {
                        assert(!has_tag(t)(strip(self@)));
                    }
                }
            }
        }
        let mut i: usize = 0;
        while i < self.children.len()
            invariant
                i <= self.children.len(),
                cv == forest_view(self.children@),
                cv.len() == self.children@.len(),
                forall|j: int| 0 <= j < cv.len() ==> #[trigger] cv[j] == node_view(self.children@[j]),
                tag_list_ok(counts@),
                forall|t: Seq<char>| listed_count(c0, t) + count_tree(self@, #[trigger] has_tag(t)) <= usize::MAX,
                forall|t: Seq<char>| #[trigger] listed_count(counts@, t) == listed_count(c0, t) + (if t.len() > 0 {
                    (if has_tag(t)(strip(self@)) { 1nat } else { 0nat }) + count_forest(cv.take(i as int), has_tag(t))
                } else { 0 }),
            decreases self.children.len() - i,
        {
            let ghost before = counts@;
            proof {
                assert forall|t: Seq<char>| listed_count(before, t) + count_tree(#[trigger] cv[i as int], has_tag(t)) <= usize::MAX by {
                    lemma_count_append(cv.take(i as int), cv.skip(i as int), has_tag(t));
                    assert(cv =~= cv.take(i as int) + cv.skip(i as int));
                    lemma_count_append(cv.take(i as int + 1), cv.skip(i as int + 1), has_tag(t));
                    assert(cv =~= cv.take(i as int + 1) + cv.skip(i as int + 1));
                    assert(cv.take(i as int + 1).drop_last() =~= cv.take(i as int));
                }
                assert forall|t: Seq<char>| listed_count(before, t) + count_tree(self.children@[i as int]@, #[trigger] has_tag(t)) <= usize::MAX by {
                    assert(listed_count(before, t) + count_tree(cv[i as int], has_tag(t)) <= usize::MAX);
                }
            }
            self.children[i].collect_tags(counts);
            proof {
                assert forall|t: Seq<char>| #[trigger] listed_count(counts@, t) == listed_count(c0, t) + (if t.len() > 0 {
                    (if has_tag(t)(strip(self@)) { 1nat } else { 0nat }) + count_forest(cv.take(i as int + 1), has_tag(t))
                } else { 0 }) by {
                    assert(cv.take(i as int + 1).drop_last() =~= cv.take(i as int));
                    assert(listed_count(counts@, t) == listed_count(before, t) + (if t.len() > 0 { count_tree(self.children@[i as int]@, has_tag(t)) } else { 0 }));
                }
            }
            i = i + 1;
        }
        proof {
            assert(cv.take(i as int) =~= cv);
        }
    }
}

} // verus!
