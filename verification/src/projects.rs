use vstd::prelude::*;
use crate::text::{chars_of, string_of};
use crate::storage::Storage;
use crate::todo::{
    Todo, TaskView, any_task, count_forest, count_tree, forest_view, node_view, forest_height, tree_height,
    with_depth, with_depth_each, lemma_with_depth_each, lemma_forest_view, lemma_forest_height,
    sorted_forest, law_sort_keeps_tasks, now_secs, has_tag, listed_count, tag_list_ok,
};
use crate::storage::by_count_desc;

verus! {

broadcast use vstd::seq_lib::group_to_multiset_ensures;

/// Text order, as `Ord` orders strings: character by character by code
/// point, a proper prefix first.
pub open spec fn text_lt(a: Seq<char>, b: Seq<char>) -> bool
    decreases a.len(),
{
    if a.len() == 0 {
        b.len() > 0
    } else if b.len() == 0 {
        false
    } else if a[0] != b[0] {
        a[0] < b[0]
    } else {
        text_lt(a.drop_first(), b.drop_first())
    }
}

pub proof fn lemma_text_lt_irrefl(a: Seq<char>)
    ensures
        !text_lt(a, a),
    decreases a.len(),
{
    if a.len() > 0 {
        lemma_text_lt_irrefl(a.drop_first());
    }
}

pub proof fn lemma_text_lt_total(a: Seq<char>, b: Seq<char>)
    ensures
        text_lt(a, b) || a == b || text_lt(b, a),
        !(text_lt(a, b) && text_lt(b, a)),
        !text_lt(a, a),
    decreases a.len(),
{
    lemma_text_lt_irrefl(a);
    if a.len() > 0 && b.len() > 0 {
        lemma_text_lt_total(a.drop_first(), b.drop_first());
        if a[0] == b[0] && a.drop_first() == b.drop_first() {
            assert forall|i: int| 0 <= i < a.len() implies a[i] == b[i] by {
                if i > 0 {
                    assert(a[i] == a.drop_first()[i - 1]);
                    assert(b[i] == b.drop_first()[i - 1]);
                }
            }
            assert(a =~= b);
        }
    } else if a.len() == 0 && b.len() == 0 {
        assert(a =~= b);
    }
}

pub proof fn lemma_text_lt_trans(a: Seq<char>, b: Seq<char>, c: Seq<char>)
    requires
        text_lt(a, b),
        text_lt(b, c),
    ensures
        text_lt(a, c),
    decreases a.len(),
{
    if a.len() > 0 && b.len() > 0 && c.len() > 0 && a[0] == b[0] && b[0] == c[0] {
        lemma_text_lt_trans(a.drop_first(), b.drop_first(), c.drop_first());
    }
}

/// Whether `a` comes before `b` in text order.
pub fn text_less(a: &Vec<char>, b: &Vec<char>) -> (r: bool)
    ensures
        r == text_lt(a@, b@),
{
    let mut i: usize = 0;
    proof {
        assert(a@.skip(0) =~= a@);
        assert(b@.skip(0) =~= b@);
    }
    while i < a.len() && i < b.len()
        invariant
            i <= a.len(),
            i <= b.len(),
            forall|j: int| 0 <= j < i ==> a@[j] == b@[j],
            text_lt(a@, b@) == text_lt(a@.skip(i as int), b@.skip(i as int)),
        decreases a.len() - i,
    {
        proof {
            assert(a@.skip(i as int).drop_first() =~= a@.skip(i as int + 1));
            assert(b@.skip(i as int).drop_first() =~= b@.skip(i as int + 1));
        }
        proof {
            assert(a@.skip(i as int)[0] == a@[i as int]);
            assert(b@.skip(i as int)[0] == b@[i as int]);
        }
        if a[i] != b[i] {
            return a[i] < b[i];
        }
        i = i + 1;
    }
    i < b.len()
}

/// Whether a sequence of texts is in text order.
pub open spec fn names_sorted(s: Seq<Seq<char>>) -> bool {
    forall|i: int, j: int| 0 <= i < j < s.len() ==> !text_lt(#[trigger] s[j], #[trigger] s[i])
}

pub open spec fn string_views(v: Seq<String>) -> Seq<Seq<char>> {
    v.map_values(|x: String| x@)
}

/// Puts names in text order.
pub fn sort_names(v: Vec<String>) -> (r: Vec<String>)
    ensures
        names_sorted(string_views(r@)),
        string_views(r@).to_multiset() == string_views(v@).to_multiset(),
{
    let mut sorted: Vec<String> = Vec::new();
    let mut keys: Vec<Vec<char>> = Vec::new();
    let mut i: usize = 0;
    while i < v.len()
        invariant
            i <= v.len(),
            sorted@.len() == keys@.len(),
            forall|j: int| 0 <= j < keys@.len() ==> #[trigger] keys@[j]@ == sorted@[j]@,
            names_sorted(string_views(sorted@)),
            string_views(sorted@).to_multiset() == string_views(v@.take(i as int)).to_multiset(),
        decreases v.len() - i,
    {
        let x = v[i].clone();
        let xk = chars_of(x.as_str());
        let ghost sv = string_views(sorted@);
        proof {
            assert(forall|j: int| 0 <= j < sorted@.len() ==> #[trigger] sv[j] == sorted@[j]@);
        }
        let mut p: usize = 0;
        while p < sorted.len() && text_less(&keys[p], &xk)
            invariant
                p <= sorted@.len(),
                sorted@.len() == keys@.len(),
                sv == string_views(sorted@),
                xk@ == x@,
                forall|j: int| 0 <= j < sorted@.len() ==> #[trigger] sv[j] == sorted@[j]@,
                forall|j: int| 0 <= j < keys@.len() ==> #[trigger] keys@[j]@ == sorted@[j]@,
                forall|j: int| 0 <= j < p ==> text_lt(#[trigger] sv[j], x@),
            decreases sorted@.len() - p,
        {
            p = p + 1;
        }
        proof {
            assert(sv.len() == sorted@.len());
            if p < sorted@.len() {
                assert(sv[p as int] == keys@[p as int]@);
                assert(!text_lt(sv[p as int], x@));
            }
            assert forall|j: int| p <= j < sv.len() implies !text_lt(#[trigger] sv[j], x@) by {
                if j > p {
                    assert(!text_lt(sv[j], sv[p as int]));
                    lemma_text_lt_total(sv[j], sv[p as int]);
                    if text_lt(sv[j], x@) {
                        lemma_text_lt_total(sv[p as int], x@);
                        if sv[p as int] != x@ {
                            lemma_text_lt_trans(sv[j], x@, sv[p as int]);
                        }
                        lemma_text_lt_total(sv[j], sv[j]);
                    }
                }
            }
        }
        sorted.insert(p, x);
        keys.insert(p, xk);
        proof {
            let nv = string_views(sorted@);
            assert(nv =~= sv.insert(p as int, x@));
            assert(v@.take(i as int + 1) =~= v@.take(i as int).push(v@[i as int]));
            assert(string_views(v@.take(i as int + 1)) =~= string_views(v@.take(i as int)).push(x@));
            vstd::seq_lib::to_multiset_insert(sv, p as int, x@);
            vstd::seq_lib::to_multiset_build(string_views(v@.take(i as int)), x@);
            assert forall|a: int, b: int| 0 <= a < b < nv.len() implies !text_lt(#[trigger] nv[b], #[trigger] nv[a]) by {
                if a < p && b == p {
                    lemma_text_lt_total(nv[a], x@);
                } else if a == p && b > p {
                    assert(nv[b] == sv[b - 1]);
                } else if a < p && b > p {
                    assert(nv[b] == sv[b - 1]);
                    assert(nv[a] == sv[a]);
                } else if b < p {
                    assert(nv[b] == sv[b]);
                    assert(nv[a] == sv[a]);
                } else {
                    assert(nv[b] == sv[b - 1]);
                    assert(nv[a] == sv[a - 1]);
                }
                if a < p && b > p {
                    if text_lt(nv[b], nv[a]) {
                        lemma_text_lt_trans(nv[b], nv[a], x@);
                    }
                }
            }
            assert forall|j: int| 0 <= j < keys@.len() implies #[trigger] keys@[j]@ == sorted@[j]@ by {
                if j < p {
                } else if j > p {
                }
            }
        }
        i = i + 1;
    }
    proof {
        assert(v@.take(i as int) =~= v@);
    }
    sorted
}

/// The project a file of the projects directory holds: a file named
/// `<name>.yaml` with a non-empty name holds the project `<name>`.
pub open spec fn yaml_stem(f: Seq<char>) -> Option<Seq<char>> {
    if f.len() > 5 && f.subrange(f.len() - 5, f.len() as int) == seq!['.', 'y', 'a', 'm', 'l'] {
        Some(f.subrange(0, f.len() - 5))
    } else {
        None
    }
}

/// The projects held by the files with the given names, in file order.
pub open spec fn project_stems(files: Seq<Seq<char>>) -> Seq<Seq<char>>
    decreases files.len(),
{
    if files.len() == 0 {
        Seq::empty()
    } else {
        let rest = project_stems(files.drop_last());
        match yaml_stem(files.last()) {
            Some(n) => rest.push(n),
            None => rest,
        }
    }
}

/// The name of the project that always exists.
pub open spec fn default_name() -> Seq<char> {
    "default"@
}

fn stem_of(f: &String) -> (r: Option<String>)
    ensures
        match r {
            Some(n) => yaml_stem(f@) == Some(n@),
            None => yaml_stem(f@) is None,
        },
{
    let v = chars_of(f.as_str());
    let n = v.len();
    if n > 5 && v[n - 5] == '.' && v[n - 4] == 'y' && v[n - 3] == 'a' && v[n - 2] == 'm' && v[n - 1] == 'l' {
        let mut stem: Vec<char> = Vec::new();
        let mut i: usize = 0;
        while i < n - 5
            invariant
                n == v@.len(),
                n > 5,
                i <= n - 5,
                stem@ == v@.take(i as int),
            decreases n - 5 - i,
        {
            stem.push(v[i]);
            proof {
                assert(v@.take(i as int + 1) =~= v@.take(i as int).push(v@[i as int]));
            }
            i = i + 1;
        }
        proof {
            assert(v@.subrange(n - 5, n as int) =~= seq!['.', 'y', 'a', 'm', 'l']);
            assert(stem@ =~= v@.subrange(0, n - 5));
        }
        Some(string_of(&stem))
    } else {
        proof {
            if n > 5 {
                let tail = v@.subrange(n - 5, n as int);
                if tail == seq!['.', 'y', 'a', 'm', 'l'] {
                    assert(tail[0] == v@[n - 5]);
                    assert(tail[1] == v@[n - 4]);
                    assert(tail[2] == v@[n - 3]);
                    assert(tail[3] == v@[n - 2]);
                    assert(tail[4] == v@[n - 1]);
                }
            }
        }
        None
    }
}

/// The projects listed from the names of the files of the projects
/// directory, in text order; just `default` when no file holds a project.
pub fn project_names(files: &Vec<String>) -> (r: Vec<String>)
    ensures
        names_sorted(string_views(r@)),
        string_views(r@).to_multiset() == (if project_stems(string_views(files@)).len() == 0 {
            seq![default_name()]
        } else {
            project_stems(string_views(files@))
        }).to_multiset(),
{
    let ghost fv = string_views(files@);
    let mut names: Vec<String> = Vec::new();
    let mut i: usize = 0;
    while i < files.len()
        invariant
            i <= files@.len(),
            fv == string_views(files@),
            fv.len() == files@.len(),
            string_views(names@) == project_stems(fv.take(i as int)),
        decreases files.len() - i,
    {
        proof {
            assert(fv.take(i as int + 1).drop_last() =~= fv.take(i as int));
            assert(fv.take(i as int + 1).last() == files@[i as int]@);
        }
        let ghost before = names@;
        match stem_of(&files[i]) {
            Some(n) => {
                names.push(n);
                proof {
                    assert(string_views(names@) =~= string_views(before).push(names@.last()@));
                }
            }
            None => {}
        }
        i = i + 1;
    }
    proof {
        assert(fv.take(i as int) =~= fv);
    }
    if names.len() == 0 {
        names.push(String::from_str("default"));
        proof {
            assert(string_views(names@) =~= seq![default_name()]);
        }
    }
    sort_names(names)
}

/// Whether a name can name a project: not empty, and free of `.`, `/` and `\`.
pub open spec fn valid_name(n: Seq<char>) -> bool {
    n.len() > 0 && forall|i: int| 0 <= i < n.len() ==> #[trigger] n[i] != '.' && n[i] != '/' && n[i] != '\\'
}

/// Whether a name can name a project (see `valid_name`).
pub fn valid_project_name(name: &str) -> (r: bool)
    ensures
        r == valid_name(name@),
{
    let v = chars_of(name);
    if v.len() == 0 {
        return false;
    }
    let mut i: usize = 0;
    while i < v.len()
        invariant
            i <= v@.len(),
            v@ == name@,
            forall|j: int| 0 <= j < i ==> #[trigger] v@[j] != '.' && v@[j] != '/' && v@[j] != '\\',
        decreases v.len() - i,
    {
        let c = v[i];
        if c == '.' || c == '/' || c == '\\' {
            return false;
        }
        i = i + 1;
    }
    true
}

/// Whether a new project may be made: fewer projects than the limit, and
/// no file of that name yet.
pub fn create_project_allowed(project_count: usize, max_projects: usize, file_exists: bool) -> (r: bool)
    ensures
        r == (project_count < max_projects && !file_exists),
{
    project_count < max_projects && !file_exists
}

fn is_default(name: &str) -> (r: bool)
    ensures
        r == (name@ == default_name()),
{
    String::from_str(name) == String::from_str("default")
}

/// Whether a project may be deleted: its file exists and it is not the
/// default project.
pub fn delete_project_allowed(name: &str, file_exists: bool) -> (r: bool)
    ensures
        r == (name@ != default_name() && file_exists),
{
    !is_default(name) && file_exists
}

/// Whether a project may be renamed: it is not the default project, the
/// new name is not empty, its file exists and no file has the new name.
pub fn rename_project_allowed(old_name: &str, new_name: &str, old_exists: bool, new_exists: bool) -> (r: bool)
    ensures
        r == (old_name@ != default_name() && new_name@.len() > 0 && old_exists && !new_exists),
{
    !is_default(old_name) && !String::from_str(new_name).as_str().is_empty() && old_exists && !new_exists
}

/// Index of the first name equal to `current`, or 0 when none is.
pub open spec fn position_or_first(names: Seq<Seq<char>>, current: Seq<char>) -> int
    decreases names.len(),
{
    if names.len() == 0 {
        0
    } else {
        let i = position_or_first(names.drop_last(), current);
        if names.drop_last().contains(current) {
            i
        } else if names.last() == current {
            names.len() - 1
        } else {
            0
        }
    }
}

/// The project to switch to from `current` in a list of projects: the next
/// one (wrapping round) when `forward`, else the previous one; none when
/// the list holds at most one project.
pub fn neighbor_project(projects: &Vec<String>, current: &str, forward: bool) -> (r: Option<usize>)
    ensures
        projects@.len() <= 1 ==> r is None,
        projects@.len() > 1 ==> r == Some(({
            let pos = position_or_first(string_views(projects@), current@);
            if forward {
                (pos + 1) % (projects@.len() as int)
            } else if pos == 0 {
                projects@.len() - 1
            } else {
                pos - 1
            }
        }) as usize),
{
    let n = projects.len();
    if n <= 1 {
        return None;
    }
    let cur = String::from_str(current);
    let ghost pv = string_views(projects@);
    let mut pos: usize = 0;
    let mut found = false;
    let mut i: usize = 0;
    while i < n
        invariant
            n == projects@.len(),
            pv == string_views(projects@),
            pv.len() == n,
            cur@ == current@,
            i <= n,
            found == pv.take(i as int).contains(current@),
            pos as int == position_or_first(pv.take(i as int), current@),
            pos < n,
        decreases n - i,
    {
        proof {
            assert(pv.take(i as int + 1).drop_last() =~= pv.take(i as int));
            assert(pv.take(i as int + 1).last() == projects@[i as int]@);
            if pv.take(i as int).contains(current@) {
                let k = choose|k: int| 0 <= k < i && pv.take(i as int)[k] == current@;
                assert(pv.take(i as int + 1)[k] == current@);
            }
        }
        if !found && projects[i] == cur {
            pos = i;
            found = true;
            proof {
                assert(pv.take(i as int + 1)[i as int] == current@);
            }
        } else {
            proof {
                if !found {
                    assert forall|k: int| 0 <= k < i + 1 implies #[trigger] pv.take(i as int + 1)[k] != current@ by {
                        if k < i {
                            assert(pv.take(i as int + 1)[k] == pv.take(i as int)[k]);
                        }
                    }
                }
            }
        }
        i = i + 1;
    }
    proof {
        assert(pv.take(i as int) =~= pv);
    }
    if forward {
        Some((pos + 1) % n)
    } else if pos == 0 {
        Some(n - 1)
    } else {
        Some(pos - 1)
    }
}

proof fn lemma_depth_count(s: Seq<TaskView>, d: nat)
    ensures
        count_forest(with_depth_each(s, d), any_task()) == count_forest(s, any_task()),
    decreases s,
{
    if s.len() > 0 {
        lemma_depth_count(s.drop_last(), d);
        lemma_depth_count(s.last().children, d + 1);
        let w = with_depth_each(s, d);
        assert(w.drop_last() == with_depth_each(s.drop_last(), d));
        assert(w.last() == with_depth(s.last(), d));
        assert(any_task()(crate::todo::strip(w.last())));
        assert(any_task()(crate::todo::strip(s.last())));
        assert(w.last().children == with_depth_each(s.last().children, d + 1));
        assert(count_tree(w.last(), any_task()) == 1 + count_forest(w.last().children, any_task()));
        assert(count_tree(s.last(), any_task()) == 1 + count_forest(s.last().children, any_task()));
        assert(count_forest(w, any_task()) == count_forest(w.drop_last(), any_task()) + count_tree(w.last(), any_task()));
        assert(count_forest(s, any_task()) == count_forest(s.drop_last(), any_task()) + count_tree(s.last(), any_task()));
    }
}

/// Sets the depth of every task of a list from its place: 0 at the top.
pub fn rebuild_depth_in_todos(todos: &mut Vec<Todo>)
    requires
        forest_height(forest_view(old(todos)@)) <= usize::MAX,
    ensures
        forest_view(final(todos)@) == with_depth_each(forest_view(old(todos)@), 0),
{
    let ghost ov = forest_view(old(todos)@);
    proof {
        lemma_forest_view(old(todos)@);
        lemma_with_depth_each(ov, 0);
        lemma_forest_height(ov);
    }
    let mut i: usize = 0;
    while i < todos.len()
        invariant
            i <= todos.len(),
            todos.len() == old(todos).len(),
            ov == forest_view(old(todos)@),
            ov.len() == old(todos)@.len(),
            forall|j: int| 0 <= j < ov.len() ==> #[trigger] ov[j] == node_view(old(todos)@[j]),
            forall|j: int| 0 <= j < ov.len() ==> tree_height(#[trigger] ov[j]) <= forest_height(ov),
            forest_height(ov) <= usize::MAX,
            with_depth_each(ov, 0).len() == ov.len(),
            forall|j: int| 0 <= j < ov.len() ==> #[trigger] with_depth_each(ov, 0)[j] == with_depth(ov[j], 0),
            forall|j: int| 0 <= j < i ==> #[trigger] node_view(todos@[j]) == with_depth(ov[j], 0),
            forall|j: int| i <= j < ov.len() ==> #[trigger] todos@[j] == old(todos)@[j],
        decreases todos.len() - i,
    {
        proof {
            assert(todos@[i as int]@ == ov[i as int]);
            assert(tree_height(ov[i as int]) <= forest_height(ov));
        }
        todos[i].rebuild_depth(0);
        i = i + 1;
    }
    proof {
        lemma_forest_view(todos@);
        assert(forest_view(todos@) =~= with_depth_each(ov, 0));
    }
}

/// What a read of a project file gives: `None` when there is no file,
/// else the tasks it holds.
pub open spec fn loaded_ok(loaded: Option<Vec<Todo>>) -> bool {
    loaded matches Some(v) ==> forest_height(forest_view(v@)) <= usize::MAX
        && count_forest(forest_view(v@), any_task()) <= usize::MAX
}

/// The task list a project file gives once loaded as of `now`: nothing
/// without a file, else its tasks with depths rebuilt, in display order.
pub open spec fn loaded_tasks(loaded: Option<Vec<Todo>>, now: u64) -> Seq<TaskView> {
    match loaded {
        None => Seq::empty(),
        Some(v) => sorted_forest(with_depth_each(forest_view(v@), 0), now),
    }
}

impl Storage {
    /// Takes the tasks read from the current project's file as of `now`
    /// (see `loaded_tasks`) and marks the tags stale; without a file the
    /// list and the expanded set are emptied.
    pub fn load_current_at(&mut self, loaded: Option<Vec<Todo>>, now: u64)
        requires
            loaded_ok(loaded),
        ensures
            final(self).tasks() == loaded_tasks(loaded, now),
            final(self).dirty_tags,
            loaded is None ==> final(self).expanded@ == Set::<u64>::empty(),
            loaded is Some ==> final(self).expanded@ == old(self).expanded@,
            final(self).search == old(self).search,
            final(self).filter_tag == old(self).filter_tag,
            final(self).tags_available == old(self).tags_available,
            final(self).projects_dir == old(self).projects_dir,
            final(self).current_project == old(self).current_project,
    {
        match loaded {
            None => {
                self.todos = Vec::new();
                self.dirty_tags = true;
                self.expanded.clear();
                proof {
                    assert(self.tasks() =~= Seq::<TaskView>::empty());
                }
            }
            Some(v) => {
                let mut v = v;
                rebuild_depth_in_todos(&mut v);
                self.todos = v;
                self.dirty_tags = true;
                self.sort_all_at(now);
            }
        }
    }

    /// `load_current_at` as of now.
    pub fn load_current(&mut self, loaded: Option<Vec<Todo>>)
        requires
            loaded_ok(loaded),
        ensures
            exists|now: u64| final(self).tasks() == #[trigger] loaded_tasks(loaded, now),
            final(self).dirty_tags,
            loaded is None ==> final(self).expanded@ == Set::<u64>::empty(),
            loaded is Some ==> final(self).expanded@ == old(self).expanded@,
            final(self).search == old(self).search,
            final(self).filter_tag == old(self).filter_tag,
            final(self).tags_available == old(self).tags_available,
            final(self).projects_dir == old(self).projects_dir,
            final(self).current_project == old(self).current_project,
    {
        let now = now_secs();
        self.load_current_at(loaded, now);
    }

    /// Makes `name` the current project, given what a read of its file gave
    /// (`None`: no file), as of `now`: refused, with nothing changed, when
    /// there is no file and the name is not `default`; else the tasks are
    /// loaded, the search and tag filter cleared and the tags recounted.
    pub fn set_project_at(&mut self, name: &str, loaded: Option<Vec<Todo>>, now: u64) -> (r: bool)
        requires
            loaded_ok(loaded),
        ensures
            r == (loaded is Some || name@ == default_name()),
            !r ==> final(self).tasks() == old(self).tasks() && crate::storage::same_settings(*final(self), *old(self))
                && final(self).dirty_tags == old(self).dirty_tags,
            r ==> final(self).current_project@ == name@,
            r ==> final(self).tasks() == loaded_tasks(loaded, now),
            r ==> final(self).search@ == Seq::<char>::empty() && final(self).filter_tag@ == Seq::<char>::empty(),
            r ==> !final(self).dirty_tags && tag_list_ok(final(self).tags_available@)
                && by_count_desc(final(self).tags_available@),
            r ==> forall|t: Seq<char>| #[trigger] listed_count(final(self).tags_available@, t)
                == (if t.len() > 0 { count_forest(final(self).tasks(), has_tag(t)) } else { 0 }),
            r && loaded is None ==> final(self).expanded@ == Set::<u64>::empty(),
            r && loaded is Some ==> final(self).expanded@ == old(self).expanded@,
            final(self).projects_dir == old(self).projects_dir,
    {
        if loaded.is_none() && !is_default(name) {
            return false;
        }
        proof {
            if loaded is Some {
                let v = loaded->0;
                lemma_depth_count(forest_view(v@), 0);
                law_sort_keeps_tasks(with_depth_each(forest_view(v@), 0), any_task(), now);
            }
        }
        self.current_project = String::from_str(name);
        self.load_current_at(loaded, now);
        self.filter_tag = String::new();
        self.search = String::new();
        self.rebuild_tags();
        true
    }

    /// `set_project_at` as of now.
    pub fn set_project(&mut self, name: &str, loaded: Option<Vec<Todo>>) -> (r: bool)
        requires
            loaded_ok(loaded),
        ensures
            r == (loaded is Some || name@ == default_name()),
            !r ==> final(self).tasks() == old(self).tasks() && crate::storage::same_settings(*final(self), *old(self))
                && final(self).dirty_tags == old(self).dirty_tags,
            r ==> final(self).current_project@ == name@,
            r ==> exists|now: u64| final(self).tasks() == #[trigger] loaded_tasks(loaded, now),
            r ==> final(self).search@ == Seq::<char>::empty() && final(self).filter_tag@ == Seq::<char>::empty(),
            r ==> !final(self).dirty_tags && tag_list_ok(final(self).tags_available@)
                && by_count_desc(final(self).tags_available@),
            r ==> forall|t: Seq<char>| #[trigger] listed_count(final(self).tags_available@, t)
                == (if t.len() > 0 { count_forest(final(self).tasks(), has_tag(t)) } else { 0 }),
            r && loaded is None ==> final(self).expanded@ == Set::<u64>::empty(),
            r && loaded is Some ==> final(self).expanded@ == old(self).expanded@,
            final(self).projects_dir == old(self).projects_dir,
    {
        let now = now_secs();
        self.set_project_at(name, loaded, now)
    }

    /// After a project's file was renamed from `old_name` to `new_name`:
    /// when it was the current project, the new name becomes current and is
    /// loaded from `loaded` (see `set_project`); else nothing changes.
    pub fn after_rename(&mut self, old_name: &str, new_name: &str, loaded: Option<Vec<Todo>>)
        requires
            loaded_ok(loaded),
        ensures
            old(self).current_project@ != old_name@ ==> final(self).tasks() == old(self).tasks()
                && crate::storage::same_settings(*final(self), *old(self)),
            old(self).current_project@ == old_name@ && (loaded is Some || new_name@ == default_name())
                ==> final(self).current_project@ == new_name@
                && (exists|now: u64| final(self).tasks() == #[trigger] loaded_tasks(loaded, now))
                && final(self).search@ == Seq::<char>::empty() && final(self).filter_tag@ == Seq::<char>::empty(),
    {
        if self.current_project == String::from_str(old_name) {
            self.set_project(new_name, loaded);
        }
    }
}

} // verus!
