use vstd::prelude::*;
use crate::todo::{Todo, TaskView, generate_id};
use crate::text::{chars_of, string_of};

verus! {

/// The pieces of `s` between occurrences of `sep`, as `str::split` yields
/// them: always at least one piece, empty pieces kept.
pub open spec fn split_on(s: Seq<char>, sep: char) -> Seq<Seq<char>>
    decreases s.len(),
{
    if s.len() == 0 {
        seq![Seq::<char>::empty()]
    } else {
        let rest = split_on(s.drop_last(), sep);
        if s.last() == sep {
            rest.push(Seq::empty())
        } else {
            rest.update(rest.len() - 1, rest.last().push(s.last()))
        }
    }
}

pub proof fn lemma_split_on_nonempty(s: Seq<char>, sep: char)
    ensures
        split_on(s, sep).len() >= 1,
    decreases s.len(),
{
    if s.len() > 0 {
        lemma_split_on_nonempty(s.drop_last(), sep);
    }
}

pub open spec fn vec_views(v: Seq<Vec<char>>) -> Seq<Seq<char>> {
    v.map_values(|x: Vec<char>| x@)
}

/// Splits a character sequence at every `sep`.
pub fn split_chars(v: &Vec<char>, sep: char) -> (r: Vec<Vec<char>>)
    ensures
        vec_views(r@) == split_on(v@, sep),
{
    let mut pieces: Vec<Vec<char>> = Vec::new();
    let mut cur: Vec<char> = Vec::new();
    let mut i: usize = 0;
    while i < v.len()
        invariant
            i <= v.len(),
            vec_views(pieces@).push(cur@) == split_on(v@.take(i as int), sep),
        decreases v.len() - i,
    {
        let c = v[i];
        proof {
            assert(v@.take(i as int + 1).drop_last() =~= v@.take(i as int));
            lemma_split_on_nonempty(v@.take(i as int), sep);
        }
        if c == sep {
            let ghost old_pieces = pieces@;
            let done = cur;
            pieces.push(done);
            cur = Vec::new();
            proof {
                assert(vec_views(pieces@) =~= vec_views(old_pieces).push(done@));
                assert(vec_views(pieces@).push(cur@) =~= split_on(v@.take(i as int + 1), sep));
            }
        } else {
            let ghost old_cur = cur@;
            cur.push(c);
            proof {
                let prev = vec_views(pieces@).push(old_cur);
                assert(vec_views(pieces@).push(cur@) =~= prev.update(prev.len() - 1, prev.last().push(c)));
            }
        }
        i = i + 1;
    }
    let ghost old_pieces = pieces@;
    pieces.push(cur);
    proof {
        assert(v@.take(i as int) =~= v@);
        assert(vec_views(pieces@) =~= vec_views(old_pieces).push(cur@));
    }
    pieces
}

/// The value of a run of decimal digits.
pub open spec fn digits_value(s: Seq<char>) -> nat
    decreases s.len(),
{
    if s.len() == 0 {
        0
    } else {
        digits_value(s.drop_last()) * 10 + ((s.last() as nat) - ('0' as nat)) as nat
    }
}

pub open spec fn is_digit(c: char) -> bool {
    '0' <= c && c <= '9'
}

pub open spec fn all_digits(s: Seq<char>) -> bool {
    forall|i: int| 0 <= i < s.len() ==> #[trigger] is_digit(s[i])
}

/// The digits that an unsigned decimal number is read from: the text
/// without one leading `+`.
pub open spec fn unsigned_body(s: Seq<char>) -> Seq<char> {
    if s.len() > 0 && s[0] == '+' {
        s.drop_first()
    } else {
        s
    }
}

/// What parsing `s` as a `u64` gives: an optional `+` followed by at least
/// one ASCII digit, with a value that fits.
pub open spec fn parse_u64_spec(s: Seq<char>) -> Option<u64> {
    let d = unsigned_body(s);
    if d.len() > 0 && all_digits(d) && digits_value(d) <= u64::MAX {
        Some(digits_value(d) as u64)
    } else {
        None
    }
}

proof fn lemma_digits_prefix(s: Seq<char>, k: int)
    requires
        all_digits(s),
        0 <= k <= s.len(),
    ensures
        digits_value(s.take(k)) <= digits_value(s),
    decreases s.len(),
{
    if k < s.len() {
        assert(s.drop_last().take(k) =~= s.take(k));
        lemma_digits_prefix(s.drop_last(), k);
        assert(is_digit(s[s.len() - 1]));
    } else {
        assert(s.take(k) =~= s);
    }
}

/// The value of the digits `d`, when they are at least one digit and fit in a `u64`.
pub open spec fn digit_run(d: Seq<char>) -> Option<u64> {
    if d.len() > 0 && all_digits(d) && digits_value(d) <= u64::MAX {
        Some(digits_value(d) as u64)
    } else {
        None
    }
}

/// Reads the characters of `s` from place `start` on as a run of digits
/// (see `digit_run`).
pub fn read_digits(s: &Vec<char>, start: usize) -> (r: Option<u64>)
    requires
        start <= s@.len(),
    ensures
        r == digit_run(s@.skip(start as int)),
{
    let ghost d = s@.skip(start as int);
    if start == s.len() {
        return None;
    }
    let mut acc: u64 = 0;
    let mut i: usize = start;
    proof {
        assert(d.take(0) =~= Seq::<char>::empty());
    }
    while i < s.len()
        invariant
            start <= i <= s.len(),
            d == s@.skip(start as int),
            acc == digits_value(d.take(i - start)),
            all_digits(d.take(i - start)),
        decreases s.len() - i,
    {
        let c = s[i];
        let ghost k: int = i - start;
        proof {
            assert(d.take(k + 1).drop_last() =~= d.take(k));
            assert(d[k] == c);
        }
        if !('0' <= c && c <= '9') {
            proof {
                assert(!is_digit(d[k]));
            }
            return None;
        }
        let digit: u64 = (c as u64) - ('0' as u64);
        proof {
            assert(digits_value(d.take(k + 1)) == acc * 10 + digit);
            assert forall|j: int| 0 <= j < k + 1 implies #[trigger] is_digit(d.take(k + 1)[j]) by {
                if j < k {
                    assert(d.take(k + 1)[j] == d.take(k)[j]);
                }
            }
        }
        match acc.checked_mul(10) {
            None => {
                proof {
                    if all_digits(d) {
                        lemma_digits_prefix(d, k + 1);
                    }
                }
                return None;
            }
            Some(m) => match m.checked_add(digit) {
                None => {
                    proof {
                        if all_digits(d) {
                            lemma_digits_prefix(d, k + 1);
                        }
                    }
                    return None;
                }
                Some(n) => {
                    acc = n;
                }
            },
        }
        i = i + 1;
    }
    proof {
        assert(d.take(i - start) =~= d);
    }
    Some(acc)
}

/// Reads a decimal `u64` as `str::parse` does.
pub fn parse_u64(s: &Vec<char>) -> (r: Option<u64>)
    ensures
        r == parse_u64_spec(s@),
{
    let start: usize = if s.len() > 0 && s[0] == '+' { 1 } else { 0 };
    proof {
        assert(unsigned_body(s@) =~= s@.skip(start as int));
    }
    read_digits(s, start)
}

/// Reads a decimal number as `parse` does, `0` when it does not read.
pub open spec fn number_or_zero(s: Seq<char>) -> u64 {
    match parse_u64_spec(s) {
        Some(n) => n,
        None => 0,
    }
}

/// The task a line of the old text format describes, given its id:
/// `pinned|done|tag|text|created|done_at[|due]`, where `P` marks a pinned
/// task, `x` a done one, `none` an empty tag, and numbers that do not read
/// count as 0. A line of fewer than six fields describes no task.
pub open spec fn legacy_task(line: Seq<char>, id: u64) -> Option<TaskView> {
    let p = split_on(line, '|');
    if p.len() < 6 {
        None
    } else {
        Some(TaskView {
            id,
            parent_id: None,
            depth: 0,
            done: p[1] == seq!['x'],
            pinned: p[0] == seq!['P'],
            tag: if p[2] == seq!['n', 'o', 'n', 'e'] { Seq::empty() } else { p[2] },
            text: p[3],
            created_at: number_or_zero(p[4]),
            done_at: number_or_zero(p[5]),
            due_date: if p.len() >= 7 { number_or_zero(p[6]) } else { 0 },
            children: Seq::empty(),
        })
    }
}

fn is_just(v: &Vec<char>, c: char) -> (r: bool)
    ensures
        r == (v@ == seq![c]),
{
    let r = v.len() == 1 && v[0] == c;
    proof {
        if v.len() == 1 && v[0] == c {
            assert(v@ =~= seq![c]);
        }
    }
    r
}

fn is_none_word(v: &Vec<char>) -> (r: bool)
    ensures
        r == (v@ == seq!['n', 'o', 'n', 'e']),
{
    let r = v.len() == 4 && v[0] == 'n' && v[1] == 'o' && v[2] == 'n' && v[3] == 'e';
    proof {
        if r {
            assert(v@ =~= seq!['n', 'o', 'n', 'e']);
        }
    }
    r
}

fn number_field(v: &Vec<char>) -> (r: u64)
    ensures
        r == number_or_zero(v@),
{
    match parse_u64(v) {
        Some(n) => n,
        None => 0,
    }
}

/// Reads one line of the old text format into a task with the given id.
pub fn parse_legacy_line(line: &str, id: u64) -> (r: Option<Todo>)
    ensures
        r matches Some(t) ==> legacy_task(line@, id) == Some(t@),
        r is None <==> legacy_task(line@, id) is None,
{
    let chars = chars_of(line);
    let parts = split_chars(&chars, '|');
    proof {
        assert(vec_views(parts@).len() == parts@.len());
    }
    if parts.len() < 6 {
        return None;
    }
    proof {
        let vv = vec_views(parts@);
        assert(forall|i: int| 0 <= i < parts@.len() ==> #[trigger] vv[i] == parts@[i]@);
    }
    let pinned = is_just(&parts[0], 'P');
    let done = is_just(&parts[1], 'x');
    let tag = if is_none_word(&parts[2]) { String::new() } else { string_of(&parts[2]) };
    let text = string_of(&parts[3]);
    let created_at = number_field(&parts[4]);
    let done_at = number_field(&parts[5]);
    let due_date = if parts.len() >= 7 { number_field(&parts[6]) } else { 0 };
    let t = Todo {
        id,
        parent_id: None,
        depth: 0,
        done,
        pinned,
        tag,
        text,
        created_at,
        done_at,
        due_date,
        children: Vec::new(),
    };
    proof {
        assert(t@.children =~= Seq::<TaskView>::empty());
        assert(t@ =~= legacy_task(line@, id)->0);
    }
    Some(t)
}

impl Todo {
    /// Reads one line of the old text format (see `legacy_task`) into a
    /// task with a fresh id; `None` for a line of fewer than six fields.
    pub fn from_line_legacy(line: &str) -> (r: Option<Todo>)
        ensures
            r matches Some(t) ==> legacy_task(line@, t.id) == Some(t@),
            r is None <==> split_on(line@, '|').len() < 6,
    {
        let id = generate_id();
        parse_legacy_line(line, id)
    }
}

/// A line without one final carriage return.
pub open spec fn strip_cr(l: Seq<char>) -> Seq<char> {
    if l.len() > 0 && l.last() == '\r' {
        l.drop_last()
    } else {
        l
    }
}

/// The lines of a text as `str::lines` gives them: split at `\n`, with no
/// empty line after a final line ending, and the `\r` of a `\r\n` ending
/// dropped.
pub open spec fn text_lines_spec(s: Seq<char>) -> Seq<Seq<char>> {
    let p = split_on(s, '\n');
    let kept = if p.last().len() == 0 { p.drop_last() } else { p };
    Seq::new(kept.len(), |i: int| if i + 1 < p.len() { strip_cr(kept[i]) } else { kept[i] })
}

/// The lines of a text (see `text_lines_spec`).
pub fn text_lines(s: &str) -> (r: Vec<String>)
    ensures
        r@.len() == text_lines_spec(s@).len(),
        forall|i: int| 0 <= i < r@.len() ==> #[trigger] r@[i]@ == text_lines_spec(s@)[i],
{
    let chars = chars_of(s);
    let pieces = split_chars(&chars, '\n');
    let ghost p = split_on(s@, '\n');
    proof {
        lemma_split_on_nonempty(s@, '\n');
        assert(forall|i: int| 0 <= i < pieces@.len() ==> #[trigger] p[i] == pieces@[i]@);
    }
    let n = pieces.len();
    let kept = if pieces[n - 1].len() == 0 { n - 1 } else { n };
    let mut r: Vec<String> = Vec::new();
    let mut i: usize = 0;
    while i < kept
        invariant
            kept <= n,
            n == pieces@.len(),
            n == p.len(),
            p == split_on(s@, '\n'),
            kept as int == text_lines_spec(s@).len(),
            forall|j: int| 0 <= j < n ==> #[trigger] p[j] == pieces@[j]@,
            r@.len() == i,
            i <= kept,
            forall|j: int| 0 <= j < i ==> #[trigger] r@[j]@ == text_lines_spec(s@)[j],
        decreases kept - i,
    {
        let piece = &pieces[i];
        let l = piece.len();
        let line = if i + 1 < n && l > 0 && piece[l - 1] == '\r' {
            let mut v: Vec<char> = Vec::new();
            let mut k: usize = 0;
            while k + 1 < l
                invariant
                    l == piece@.len(),
                    l > 0,
                    k + 1 <= l,
                    v@ == piece@.take(k as int),
                decreases l - k,
            {
                v.push(piece[k]);
                proof {
                    assert(piece@.take(k as int + 1) =~= piece@.take(k as int).push(piece@[k as int]));
                }
                k = k + 1;
            }
            proof {
                assert(v@ =~= piece@.drop_last());
            }
            string_of(&v)
        } else {
            string_of(piece)
        };
        proof {
            assert(text_lines_spec(s@)[i as int] == (if i + 1 < p.len() { strip_cr(p[i as int]) } else { p[i as int] }));
        }
        r.push(line);
        i = i + 1;
    }
    r
}

/// The lines that describe a task in the old text format: those of at
/// least six `|`-separated fields.
pub open spec fn task_lines(lines: Seq<Seq<char>>) -> Seq<Seq<char>>
    decreases lines.len(),
{
    if lines.len() == 0 {
        Seq::empty()
    } else if split_on(lines.last(), '|').len() >= 6 {
        task_lines(lines.drop_last()).push(lines.last())
    } else {
        task_lines(lines.drop_last())
    }
}

/// Reads a file of the old text format: one task per line that describes
/// one, each with a fresh id, lines in order.
pub fn legacy_todos(content: &str) -> (r: Vec<Todo>)
    ensures
        r@.len() == task_lines(text_lines_spec(content@)).len(),
        forall|k: int| 0 <= k < r@.len() ==>
            legacy_task(task_lines(text_lines_spec(content@))[k], (#[trigger] r@[k]).id) == Some(r@[k]@),
{
    let lines = text_lines(content);
    let ghost ls = text_lines_spec(content@);
    let mut todos: Vec<Todo> = Vec::new();
    let mut i: usize = 0;
    while i < lines.len()
        invariant
            i <= lines@.len(),
            ls == text_lines_spec(content@),
            lines@.len() == ls.len(),
            forall|j: int| 0 <= j < lines@.len() ==> #[trigger] lines@[j]@ == ls[j],
            todos@.len() == task_lines(ls.take(i as int)).len(),
            forall|k: int| 0 <= k < todos@.len() ==>
                legacy_task(task_lines(ls.take(i as int))[k], (#[trigger] todos@[k]).id) == Some(todos@[k]@),
        decreases lines.len() - i,
    {
        proof {
            assert(ls.take(i as int + 1).drop_last() =~= ls.take(i as int));
            assert(ls.take(i as int + 1).last() == ls[i as int]);
        }
        let ghost before = todos@;
        match Todo::from_line_legacy(lines[i].as_str()) {
            Some(t) => {
                todos.push(t);
                proof {
                    let tl = task_lines(ls.take(i as int + 1));
                    assert(tl == task_lines(ls.take(i as int)).push(ls[i as int]));
                    assert forall|k: int| 0 <= k < todos@.len() implies
                        legacy_task(tl[k], (#[trigger] todos@[k]).id) == Some(todos@[k]@) by {
                        if k < before.len() {
                            assert(todos@[k] == before[k]);
                        }
                    }
                }
            }
            None => {
                proof {
                    assert(task_lines(ls.take(i as int + 1)) == task_lines(ls.take(i as int)));
                }
            }
        }
        i = i + 1;
    }
    proof {
        assert(ls.take(i as int) =~= ls);
    }
    todos
}

/// Where tasks of the old text format are found.
#[derive(PartialEq, Eq, Structural, Clone, Copy, Debug)]
pub enum LegacySource {
    /// The single list of the first versions, `todos.txt` in the data directory.
    TodoList,
    /// The default project in the old text format, `default.txt`.
    DefaultProject,
}

/// Which old text file, if any, becomes the default project: none when the
/// default project already exists; else the old single list when it is
/// there, else the old default project file when it is there.
pub fn migrate_old_todos(todo_list_exists: bool, default_txt_exists: bool, default_yaml_exists: bool)
    -> (r: Option<LegacySource>)
    ensures
        r == (if default_yaml_exists {
            None
        } else if todo_list_exists {
            Some(LegacySource::TodoList)
        } else if default_txt_exists {
            Some(LegacySource::DefaultProject)
        } else {
            None
        }),
{
    if default_yaml_exists {
        None
    } else if todo_list_exists {
        Some(LegacySource::TodoList)
    } else if default_txt_exists {
        Some(LegacySource::DefaultProject)
    } else {
        None
    }
}

} // verus!
