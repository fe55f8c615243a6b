use vstd::prelude::*;
use crate::commands::Key;
use crate::legacy::{text_lines, text_lines_spec};
use crate::projects::{default_name, string_views};
use crate::text::{
    chars_of, string_of, char_columns, char_cols, cols_sum, fit_width, truncate_by_width, push_char,
    unicode_str_width, visual_width, split_lines, split_line_by_width, views_of, position_of,
    char_index_of, lens_sum, concat_lines, law_split_rejoins, find_position_from_index, total_char_index,
    lemma_lens_prefix,
};

verus! {

/// Whether the answer to a yes-or-no question is yes: exactly "y" or "Y".
pub fn confirms(answer: &str) -> (r: bool)
    ensures
        r == (answer@ == seq!['y'] || answer@ == seq!['Y']),
{
    if answer.unicode_len() != 1 {
        return false;
    }
    let c = answer.get_char(0);
    proof {
        if c == 'y' {
            assert(answer@ =~= seq!['y']);
        }
        if c == 'Y' {
            assert(answer@ =~= seq!['Y']);
        }
    }
    c == 'y' || c == 'Y'
}

/// How a pop-up reads its text.
pub enum PopupMode {
    /// One line of at most 16 characters.
    Singleline,
    /// Wrapped text of at most 256 characters.
    Multiline,
    /// Text shown, not edited.
    Readonly,
}

/// How a read-only pop-up lays out its lines.
pub enum PopupReadonlyLayout {
    SingleColumn,
    TwoColumns,
}

/// What an editor does after a key.
#[derive(PartialEq, Eq, Structural, Clone, Copy, Debug)]
pub enum EditOutcome {
    /// Still editing.
    Editing,
    /// Left without a result (Esc).
    Cancelled,
    /// Done (Enter).
    Submitted,
}

/// `a - b`, or 0 when `b` is larger.
pub open spec fn sat_sub(a: int, b: int) -> int {
    if a >= b {
        a - b
    } else {
        0
    }
}

/// A count of columns as a machine word holds it: at most `usize::MAX`.
pub open spec fn clamp(n: nat) -> nat {
    if n <= usize::MAX {
        n
    } else {
        usize::MAX as nat
    }
}

/// Columns taken by the first `n` characters, as a machine word holds it.
fn prefix_columns(v: &Vec<char>, n: usize) -> (r: usize)
    requires
        n <= v@.len(),
    ensures
        r == clamp(cols_sum(v@.take(n as int))),
{
    let mut acc: usize = 0;
    let mut i: usize = 0;
    while i < n
        invariant
            n <= v@.len(),
            i <= n,
            acc == clamp(cols_sum(v@.take(i as int))),
        decreases n - i,
    {
        proof {
            assert(v@.take(i as int + 1).drop_last() =~= v@.take(i as int));
        }
        acc = acc.saturating_add(char_columns(v[i]));
        i = i + 1;
    }
    acc
}

/// What a key does to one line of text with a cursor: Backspace removes the
/// character before the cursor, Left and Right move it, a character is
/// inserted at the cursor while the line is shorter than `max_len`.
pub open spec fn line_edit(chars: Seq<char>, cursor: int, max_len: int, key: Key) -> (Seq<char>, int) {
    match key {
        Key::Backspace => if cursor > 0 {
            (chars.remove(cursor - 1), cursor - 1)
        } else {
            (chars, cursor)
        },
        Key::Left => if cursor > 0 {
            (chars, cursor - 1)
        } else {
            (chars, cursor)
        },
        Key::Right => if cursor < chars.len() {
            (chars, cursor + 1)
        } else {
            (chars, cursor)
        },
        Key::Char(c) => if chars.len() < max_len {
            (chars.insert(cursor, c), cursor + 1)
        } else {
            (chars, cursor)
        },
        _ => (chars, cursor),
    }
}

/// Esc cancels and Enter submits; every other key keeps editing.
pub open spec fn key_outcome(key: Key) -> EditOutcome {
    match key {
        Key::Esc => EditOutcome::Cancelled,
        Key::Enter => EditOutcome::Submitted,
        _ => EditOutcome::Editing,
    }
}

/// The first column shown after scrolling so that a cursor at column `cv`
/// is in a window of `width` columns that started at `scroll`.
pub open spec fn scrolled(cv: int, scroll: int, width: int) -> int {
    let s1 = if cv >= scroll + width { sat_sub(cv, sat_sub(width, 1)) } else { scroll };
    if cv < s1 {
        cv
    } else {
        s1
    }
}

/// Number of leading characters that fit entirely in the first `cols` columns.
pub open spec fn skip_count(s: Seq<char>, cols: nat) -> nat
    decreases s.len(),
{
    if s.len() == 0 {
        0
    } else if char_cols(s[0]) <= cols {
        1 + skip_count(s.skip(1), (cols - char_cols(s[0])) as nat)
    } else {
        0
    }
}

/// What the line shows from column `scroll` on, in `width` columns: cut
/// with "…" when the text reaches past the window.
pub open spec fn line_display(s: Seq<char>, scroll: nat, width: nat) -> Seq<char> {
    let visible = if scroll == 0 { s } else { s.skip(skip_count(s, scroll) as int) };
    if unicode_str_width(s) > scroll + width {
        fit_width(visible, sat_sub(width as int, 1) as nat).push('…')
    } else {
        fit_width(visible, width)
    }
}

/// A one-line text editor with a cursor and a horizontal scroll.
pub struct LineEditor {
    pub chars: Vec<char>,
    pub cursor: usize,
    pub scroll: usize,
    pub max_len: usize,
}

impl LineEditor {
    pub open spec fn wf(&self) -> bool {
        self.cursor <= self.chars@.len()
    }

    /// An editor holding `initial`, the cursor at its end.
    pub fn new(initial: &str, max_len: usize) -> (r: LineEditor)
        ensures
            r.wf(),
            r.chars@ == initial@,
            r.cursor == initial@.len(),
            r.scroll == 0,
            r.max_len == max_len,
    {
        let chars = chars_of(initial);
        let n = chars.len();
        LineEditor { chars, cursor: n, scroll: 0, max_len }
    }

    /// Applies a key (see `line_edit` and `key_outcome`).
    pub fn handle_key(&mut self, key: Key) -> (r: EditOutcome)
        requires
            old(self).wf(),
        ensures
            final(self).wf(),
            r == key_outcome(key),
            (final(self).chars@, final(self).cursor as int) == line_edit(old(self).chars@, old(self).cursor as int, old(self).max_len as int, key),
            final(self).scroll == old(self).scroll,
            final(self).max_len == old(self).max_len,
    {
        match key {
            Key::Esc => EditOutcome::Cancelled,
            Key::Enter => EditOutcome::Submitted,
            Key::Backspace => {
                if self.cursor > 0 {
                    self.chars.remove(self.cursor - 1);
                    self.cursor = self.cursor - 1;
                }
                EditOutcome::Editing
            },
            Key::Left => {
                if self.cursor > 0 {
                    self.cursor = self.cursor - 1;
                }
                EditOutcome::Editing
            },
            Key::Right => {
                if self.cursor < self.chars.len() {
                    self.cursor = self.cursor + 1;
                }
                EditOutcome::Editing
            },
            Key::Char(c) => {
                if self.chars.len() < self.max_len {
                    self.chars.insert(self.cursor, c);
                    self.cursor = self.cursor + 1;
                }
                EditOutcome::Editing
            },
            _ => EditOutcome::Editing,
        }
    }

    /// Scrolls so that the cursor shows in `width` columns; returns the text
    /// to show (see `line_display`) and the cursor's column in it.
    pub fn view(&mut self, width: usize) -> (r: (String, usize))
        requires
            old(self).wf(),
        ensures
            final(self).wf(),
            final(self).chars == old(self).chars,
            final(self).cursor == old(self).cursor,
            final(self).max_len == old(self).max_len,
            final(self).scroll == scrolled(
                clamp(cols_sum(old(self).chars@.take(old(self).cursor as int))) as int,
                old(self).scroll as int,
                width as int,
            ),
            r.0@ == line_display(final(self).chars@, final(self).scroll as nat, width as nat),
            r.1 == sat_sub(clamp(cols_sum(old(self).chars@.take(old(self).cursor as int))) as int, final(self).scroll as int),
    {
        let cv = prefix_columns(&self.chars, self.cursor);
        if cv >= self.scroll && cv - self.scroll >= width {
            self.scroll = cv.saturating_sub(width.saturating_sub(1));
        }
        if cv < self.scroll {
            self.scroll = cv;
        }
        let scroll = self.scroll;
        let full = string_of(&self.chars);
        let visible: Vec<char> = if scroll == 0 {
            self.chars.clone()
        } else {
            let mut acc: usize = 0;
            let mut idx: usize = 0;
            let ghost s = self.chars@;
            proof {
                assert(s.skip(0) =~= s);
            }
            while idx < self.chars.len()
                invariant
                    s == self.chars@,
                    idx <= s.len(),
                    acc <= scroll,
                    skip_count(s, scroll as nat) == idx + skip_count(s.skip(idx as int), (scroll - acc) as nat),
                ensures
                    idx <= s.len(),
                    skip_count(s, scroll as nat) == idx,
                decreases s.len() - idx,
            {
                let w = char_columns(self.chars[idx]);
                proof {
                    assert(s.skip(idx as int)[0] == s[idx as int]);
                    assert(s.skip(idx as int).skip(1) =~= s.skip(idx as int + 1));
                }
                if w <= scroll - acc {
                    acc = acc + w;
                    idx = idx + 1;
                } else {
                    break;
                }
            }
            let mut v: Vec<char> = Vec::new();
            let mut k: usize = idx;
            while k < self.chars.len()
                invariant
                    s == self.chars@,
                    idx <= k <= s.len(),
                    v@ == s.subrange(idx as int, k as int),
                decreases s.len() - k,
            {
                v.push(self.chars[k]);
                proof {
                    assert(s.subrange(idx as int, k as int + 1) =~= s.subrange(idx as int, k as int).push(s[k as int]));
                }
                k = k + 1;
            }
            proof {
                assert(v@ =~= s.skip(skip_count(s, scroll as nat) as int));
            }
            v
        };
        let visible_text = string_of(&visible);
        let total = visual_width(full.as_str());
        let display = if total > scroll && total - scroll > width {
            let mut d = truncate_by_width(visible_text.as_str(), width.saturating_sub(1));
            push_char(&mut d, '…');
            d
        } else {
            truncate_by_width(visible_text.as_str(), width)
        };
        (display, cv.saturating_sub(scroll))
    }

    /// The text being edited.
    pub fn text(&self) -> (r: String)
        ensures
            r@ == self.chars@,
    {
        string_of(&self.chars)
    }
}

proof fn lemma_concat_last(ls: Seq<Seq<char>>)
    requires
        ls.len() > 0,
    ensures
        concat_lines(ls) == concat_lines(ls.drop_last()) + ls.last(),
    decreases ls.len(),
{
    if ls.len() == 1 {
        assert(ls.skip(1) =~= Seq::<Seq<char>>::empty());
        assert(ls.drop_last() =~= Seq::<Seq<char>>::empty());
        assert(concat_lines(ls.skip(1)) =~= Seq::<char>::empty());
        assert(concat_lines(ls) =~= ls[0]);
        assert(concat_lines(ls.drop_last()) + ls.last() =~= ls[0]);
    } else {
        lemma_concat_last(ls.skip(1));
        assert(ls.skip(1).drop_last() =~= ls.drop_last().skip(1));
        assert(ls.drop_last()[0] == ls[0]);
        assert(ls.skip(1).last() == ls.last());
        assert(concat_lines(ls) =~= concat_lines(ls.drop_last()) + ls.last());
    }
}

proof fn lemma_lens_concat(ls: Seq<Seq<char>>)
    ensures
        lens_sum(ls) == concat_lines(ls).len(),
    decreases ls.len(),
{
    if ls.len() > 0 {
        lemma_concat_last(ls);
        lemma_lens_concat(ls.drop_last());
    }
}

/// The wrapped lines of a text hold as many characters as the text.
proof fn lemma_wrapped_len(s: Seq<char>, width: nat)
    requires
        width > 0,
    ensures
        lens_sum(split_lines(s, width)) == s.len(),
        split_lines(s, width).len() >= 1,
{
    if s.len() > 0 {
        law_split_rejoins(s, width);
        lemma_lens_concat(split_lines(s, width));
        if split_lines(s, width).len() == 0 {
            assert(concat_lines(split_lines(s, width)) =~= Seq::<char>::empty());
        }
    } else {
        assert(crate::text::split_go(s, width, Seq::empty(), 0) =~= Seq::<Seq<char>>::empty());
        let ls = split_lines(s, width);
        assert(ls =~= seq![Seq::<char>::empty()]);
        assert(ls.drop_last() =~= Seq::<Seq<char>>::empty());
        assert(lens_sum(ls.drop_last()) == 0);
        assert(lens_sum(ls) == lens_sum(ls.drop_last()) + ls.last().len());
    }
}

proof fn lemma_index_bound(ls: Seq<Seq<char>>, row: nat, col: nat)
    ensures
        char_index_of(ls, row, col) <= lens_sum(ls),
{
    if row < ls.len() {
        lemma_lens_prefix(ls, row as int + 1);
        assert(ls.take(row as int + 1).drop_last() =~= ls.take(row as int));
    }
}

/// What a key does to a wrapped text with a cursor at character `pos`:
/// the editing keys change the text at the cursor (a character only while
/// the text is shorter than `max_total`), the arrows and page keys move the
/// cursor over the lines of at most `width` columns, keeping its column
/// where the line is long enough, Home and End go to either end.
pub open spec fn text_edit(flat: Seq<char>, pos: int, max_total: int, width: nat, page: nat, key: Key) -> (Seq<char>, int) {
    let ls = split_lines(flat, width);
    let cy = position_of(ls, pos as nat).0;
    let cx = position_of(ls, pos as nat).1;
    match key {
        Key::Backspace => if pos > 0 {
            (flat.remove(pos - 1), pos - 1)
        } else {
            (flat, pos)
        },
        Key::Delete => if pos < flat.len() {
            (flat.remove(pos), pos)
        } else {
            (flat, pos)
        },
        Key::Char(c) => if flat.len() < max_total {
            (flat.insert(pos, c), pos + 1)
        } else {
            (flat, pos)
        },
        Key::Left => if pos > 0 {
            (flat, pos - 1)
        } else {
            (flat, pos)
        },
        Key::Right => if pos < flat.len() {
            (flat, pos + 1)
        } else {
            (flat, pos)
        },
        Key::Up => if cy > 0 {
            (flat, char_index_of(ls, (cy - 1) as nat, cx) as int)
        } else {
            (flat, pos)
        },
        Key::Down => if cy + 1 < ls.len() {
            (flat, char_index_of(ls, cy + 1, cx) as int)
        } else {
            (flat, pos)
        },
        Key::PageUp => (flat, char_index_of(ls, sat_sub(cy as int, page as int) as nat, cx) as int),
        Key::PageDown => (flat, char_index_of(
            ls,
            if cy + page < ls.len() - 1 { cy + page } else { (ls.len() - 1) as nat },
            cx,
        ) as int),
        Key::Home => (flat, 0),
        Key::End => (flat, flat.len() as int),
        _ => (flat, pos),
    }
}

/// The first row shown after scrolling a window of `height` rows, that
/// started at `scroll`, so that row `cy` is in it.
pub open spec fn rows_scrolled(cy: int, scroll: int, height: int) -> int {
    let s1 = if cy < scroll { cy } else { scroll };
    if cy >= s1 + height {
        sat_sub(cy, height - 1)
    } else {
        s1
    }
}

/// A wrapped multi-line text editor with a cursor and a vertical scroll.
pub struct TextEditor {
    pub flat: Vec<char>,
    pub pos: usize,
    pub scroll: usize,
    pub max_total: usize,
}

impl TextEditor {
    pub open spec fn wf(&self) -> bool {
        self.pos <= self.flat@.len()
    }

    /// An editor holding `initial`, the cursor at its end.
    pub fn new(initial: &str, max_total: usize) -> (r: TextEditor)
        ensures
            r.wf(),
            r.flat@ == initial@,
            r.pos == initial@.len(),
            r.scroll == 0,
            r.max_total == max_total,
    {
        let flat = chars_of(initial);
        let n = flat.len();
        TextEditor { flat, pos: n, scroll: 0, max_total }
    }

    fn lines(&self, width: usize) -> (r: Vec<String>)
        requires
            width > 0,
        ensures
            views_of(r@) == split_lines(self.flat@, width as nat),
            lens_sum(views_of(r@)) == self.flat@.len(),
            r@.len() >= 1,
    {
        let s = string_of(&self.flat);
        proof {
            lemma_wrapped_len(self.flat@, width as nat);
        }
        split_line_by_width(s.as_str(), width)
    }

    /// Applies a key with lines of `width` columns and pages of `page` rows
    /// (see `text_edit` and `key_outcome`).
    pub fn handle_key(&mut self, key: Key, width: usize, page: usize) -> (r: EditOutcome)
        requires
            old(self).wf(),
            width > 0,
        ensures
            final(self).wf(),
            r == key_outcome(key),
            (final(self).flat@, final(self).pos as int) == text_edit(
                old(self).flat@, old(self).pos as int, old(self).max_total as int, width as nat, page as nat, key),
            final(self).scroll == old(self).scroll,
            final(self).max_total == old(self).max_total,
    {
        match key {
            Key::Esc => EditOutcome::Cancelled,
            Key::Enter => EditOutcome::Submitted,
            Key::Backspace => {
                if self.pos > 0 {
                    self.flat.remove(self.pos - 1);
                    self.pos = self.pos - 1;
                }
                EditOutcome::Editing
            },
            Key::Delete => {
                if self.pos < self.flat.len() {
                    self.flat.remove(self.pos);
                }
                EditOutcome::Editing
            },
            Key::Char(c) => {
                if self.flat.len() < self.max_total {
                    self.flat.insert(self.pos, c);
                    self.pos = self.pos + 1;
                }
                EditOutcome::Editing
            },
            Key::Left => {
                if self.pos > 0 {
                    self.pos = self.pos - 1;
                }
                EditOutcome::Editing
            },
            Key::Right => {
                if self.pos < self.flat.len() {
                    self.pos = self.pos + 1;
                }
                EditOutcome::Editing
            },
            Key::Home => {
                self.pos = 0;
                EditOutcome::Editing
            },
            Key::End => {
                self.pos = self.flat.len();
                EditOutcome::Editing
            },
            Key::Up | Key::Down | Key::PageUp | Key::PageDown => {
                let _total = self.flat.len();
                let lines = self.lines(width);
                let ghost ls = views_of(lines@);
                let (cy, cx) = find_position_from_index(lines.as_slice(), self.pos);
                proof {
                    crate::text::lemma_position_bound(ls, self.pos as nat);
                }
                let n = lines.len();
                let target: Option<usize> = match key {
                    Key::Up => if cy > 0 { Some(cy - 1) } else { None },
                    Key::Down => if cy + 1 < n { Some(cy + 1) } else { None },
                    Key::PageUp => Some(cy.saturating_sub(page)),
                    _ => Some(if page < n - 1 - cy { cy + page } else { n - 1 }),
                };
                match target {
                    Some(row) => {
                        let idx = total_char_index(lines.as_slice(), row, cx);
                        proof {
                            lemma_index_bound(ls, row as nat, cx as nat);
                        }
                        self.pos = idx;
                    },
                    None => {},
                }
                EditOutcome::Editing
            },
            _ => EditOutcome::Editing,
        }
    }

    /// The lines of `width` columns, the cursor's (row, column) in them,
    /// after scrolling a window of `height` rows to show the cursor's row.
    pub fn follow(&mut self, width: usize, height: usize) -> (r: (Vec<String>, usize, usize))
        requires
            old(self).wf(),
            width > 0,
            height > 0,
        ensures
            final(self).wf(),
            final(self).flat == old(self).flat,
            final(self).pos == old(self).pos,
            final(self).max_total == old(self).max_total,
            views_of(r.0@) == split_lines(old(self).flat@, width as nat),
            (r.1 as nat, r.2 as nat) == position_of(split_lines(old(self).flat@, width as nat), old(self).pos as nat),
            final(self).scroll as int == rows_scrolled(r.1 as int, old(self).scroll as int, height as int),
    {
        let lines = self.lines(width);
        let (cy, cx) = find_position_from_index(lines.as_slice(), self.pos);
        if cy < self.scroll {
            self.scroll = cy;
        }
        if cy >= self.scroll && cy - self.scroll >= height {
            self.scroll = cy.saturating_sub(height - 1);
        }
        (lines, cy, cx)
    }

    /// The text written, or `None` when it is empty.
    pub fn result(&self) -> (r: Option<String>)
        ensures
            self.flat@.len() == 0 ==> r is None,
            self.flat@.len() > 0 ==> (r matches Some(t) && t@ == self.flat@),
    {
        if self.flat.len() == 0 {
            None
        } else {
            Some(string_of(&self.flat))
        }
    }
}

/// The input width of a one-line pop-up on a terminal of the given size:
/// the pop-up is up to 74 columns wide, 4 less than the terminal, and 7
/// rows high; none when it does not fit.
pub fn line_popup_width(term_width: u16, term_height: u16) -> (r: Option<usize>)
    ensures
        ({
            let pw = if sat_sub(term_width as int, 4) < 74 { sat_sub(term_width as int, 4) } else { 74 };
            r == if pw == 0 || term_height < 9 { None } else { Some(sat_sub(pw, 8) as usize) }
        }),
{
    let pw: u16 = if term_width.saturating_sub(4) < 74 { term_width.saturating_sub(4) } else { 74 };
    if pw == 0 || term_height < 9 {
        None
    } else {
        Some(pw.saturating_sub(8) as usize)
    }
}

/// The widths of a multi-line pop-up on a terminal of the given size: the
/// columns a line may show (the pop-up's inner width, at least 20), and
/// the width text is wrapped at (that, at most `max_line_width`, at least
/// 1); none when a pop-up of 12 rows does not fit.
pub fn text_popup_widths(term_width: u16, term_height: u16, max_line_width: usize) -> (r: Option<(usize, usize)>)
    ensures
        ({
            let pw = if sat_sub(term_width as int, 4) < 74 { sat_sub(term_width as int, 4) } else { 74 };
            let shown = if pw - 8 > 20 { pw - 8 } else { 20 };
            let wrap = if shown < max_line_width { shown } else { max_line_width as int };
            r == if pw == 0 || term_height < 14 {
                None
            } else {
                Some((shown as usize, (if wrap > 1 { wrap } else { 1 }) as usize))
            }
        }),
{
    let pw: u16 = if term_width.saturating_sub(4) < 74 { term_width.saturating_sub(4) } else { 74 };
    if pw == 0 || term_height < 14 {
        return None;
    }
    let shown: usize = if pw > 28 { (pw - 8) as usize } else { 20 };
    let wrap = if shown < max_line_width { shown } else { max_line_width };
    Some((shown, if wrap > 1 { wrap } else { 1 }))
}

/// The largest display width among some lines.
pub open spec fn widest(ls: Seq<Seq<char>>) -> nat
    decreases ls.len(),
{
    if ls.len() == 0 {
        0
    } else {
        let a = widest(ls.drop_last());
        let b = unicode_str_width(ls.last()) as nat;
        if a < b {
            b
        } else {
            a
        }
    }
}

fn widest_of(v: &Vec<String>) -> (r: usize)
    ensures
        r == clamp(widest(string_views(v@))),
{
    let ghost sv = string_views(v@);
    let mut m: usize = 0;
    let mut i: usize = 0;
    while i < v.len()
        invariant
            i <= v@.len(),
            sv == string_views(v@),
            sv.len() == v@.len(),
            m == clamp(widest(sv.take(i as int))),
        decreases v.len() - i,
    {
        proof {
            assert(sv.take(i as int + 1).drop_last() =~= sv.take(i as int));
            assert(sv.take(i as int + 1).last() == v@[i as int]@);
        }
        let w = visual_width(v[i].as_str());
        if m < w {
            m = w;
        }
        i = i + 1;
    }
    proof {
        assert(sv.take(i as int) =~= sv);
    }
    m
}

/// The size a read-only pop-up asks for: its lines are those of the
/// content and one empty line; one column holds them all side by side with
/// the hint, two columns split them, the left one taking the extra line.
/// None when the content has no line.
pub open spec fn readonly_size_spec(content: Seq<char>, hint: Seq<char>, two_columns: bool) -> Option<(nat, nat)> {
    let cl = text_lines_spec(content);
    let lines = cl.push(Seq::empty());
    let hl = text_lines_spec(hint);
    let hint_height: nat = if hint.len() == 0 { 0 } else { hl.len() };
    if cl.len() == 0 {
        None
    } else if !two_columns {
        let w = if widest(lines) < widest(hl) { widest(hl) } else { widest(lines) };
        Some((clamp(w + 6), clamp(lines.len() + 4 + hint_height + 1)))
    } else {
        let left = (lines.len() + 1) / 2;
        let right = (lines.len() - left) as nat;
        let rows = if left < right { right } else { left };
        Some((clamp(2 * (widest(lines) + 2) + 2 + 4), clamp(rows + 4 + hint_height + 1)))
    }
}

/// The (width, height) a read-only pop-up asks for (see `readonly_size_spec`).
pub fn readonly_size(content: &str, hint: &str, layout: &PopupReadonlyLayout) -> (r: Option<(usize, usize)>)
    ensures
        match r {
            None => readonly_size_spec(content@, hint@, *layout is TwoColumns) is None,
            Some(p) => readonly_size_spec(content@, hint@, *layout is TwoColumns) == Some((p.0 as nat, p.1 as nat)),
        },
{
    let mut lines = text_lines(content);
    let ghost cl = text_lines_spec(content@);
    proof {
        assert(string_views(lines@) =~= cl);
    }
    if lines.len() == 0 {
        return None;
    }
    lines.push(String::new());
    proof {
        assert(string_views(lines@) =~= cl.push(Seq::empty()));
    }
    let hint_lines = text_lines(hint);
    proof {
        assert(string_views(hint_lines@) =~= text_lines_spec(hint@));
    }
    let hint_height: usize = if hint.is_empty() { 0 } else { hint_lines.len() };
    let n = lines.len();
    let wl = widest_of(&lines);
    match layout {
        PopupReadonlyLayout::SingleColumn => {
            let wh = widest_of(&hint_lines);
            let w = if wl < wh { wh } else { wl };
            Some((w.saturating_add(6), n.saturating_add(4).saturating_add(hint_height).saturating_add(1)))
        },
        PopupReadonlyLayout::TwoColumns => {
            let left = n / 2 + n % 2;
            let right = n - left;
            let rows = if left < right { right } else { left };
            proof {
                assert(left == (n + 1) / 2);
            }
            let col = wl.saturating_add(2);
            Some((
                col.saturating_add(col).saturating_add(6),
                rows.saturating_add(4).saturating_add(hint_height).saturating_add(1),
            ))
        },
    }
}

/// What the project menu asks for when it closes.
pub enum ProjectAction {
    Switch(String),
    Create,
    Rename(String),
    Delete(String),
    /// Closed without a request.
    NoAction,
}

/// The menu's answer to a key, before the selection moves: Esc closes it;
/// Enter switches to the selected project unless it is the current one;
/// `c` asks for a new project; `r` and `d` rename or delete the selected
/// project unless it is `default`. `None`: the menu stays open.
pub open spec fn picker_answer(key: Key, name: Seq<char>, current: Seq<char>) -> Option<PickerAnswer> {
    match key {
        Key::Esc => Some(PickerAnswer::NoAction),
        Key::Enter => if name == current { Some(PickerAnswer::NoAction) } else { Some(PickerAnswer::Switch) },
        Key::Char(c) => if c == 'c' || c == 'с' {
            Some(PickerAnswer::Create)
        } else if (c == 'r' || c == 'к') && name != default_name() {
            Some(PickerAnswer::Rename)
        } else if (c == 'd' || c == 'в') && name != default_name() {
            Some(PickerAnswer::Delete)
        } else {
            None
        },
        _ => None,
    }
}

/// The kind of a menu answer, without its project name.
pub enum PickerAnswer {
    Switch,
    Create,
    Rename,
    Delete,
    NoAction,
}

pub open spec fn answer_kind(a: ProjectAction) -> PickerAnswer {
    match a {
        ProjectAction::Switch(_) => PickerAnswer::Switch,
        ProjectAction::Create => PickerAnswer::Create,
        ProjectAction::Rename(_) => PickerAnswer::Rename,
        ProjectAction::Delete(_) => PickerAnswer::Delete,
        ProjectAction::NoAction => PickerAnswer::NoAction,
    }
}

pub open spec fn answer_name(a: ProjectAction) -> Option<Seq<char>> {
    match a {
        ProjectAction::Switch(n) => Some(n@),
        ProjectAction::Rename(n) => Some(n@),
        ProjectAction::Delete(n) => Some(n@),
        _ => None,
    }
}

/// Where the selection of a two-column grid of `n` projects goes on a key,
/// pages being `page` rows.
pub open spec fn picker_move(sel: int, n: int, page: int, key: Key) -> int {
    match key {
        Key::Up => if sel / 2 > 0 { sel - 2 } else { sel },
        Key::Down => if sel + 2 < n { sel + 2 } else { sel },
        Key::Left => if sel % 2 > 0 { sel - 1 } else { sel },
        Key::Right => if sel % 2 == 0 && sel + 1 < n { sel + 1 } else { sel },
        Key::PageUp => {
            let t = sat_sub(sel / 2, page) * 2;
            if t >= n { n - 1 } else { t }
        },
        Key::PageDown => {
            let max_row = (n - 1) / 2;
            let row = if sel / 2 + page < max_row { sel / 2 + page } else { max_row };
            if row * 2 >= n { n - 1 } else { row * 2 }
        },
        Key::Home => 0,
        Key::End => n - 1,
        _ => sel,
    }
}

/// The project menu's state: the selected project of a two-column grid and
/// the first row shown.
pub struct ProjectPicker {
    pub selected: usize,
    pub scroll: usize,
}

impl ProjectPicker {
    /// The menu opens on the first project.
    pub fn new() -> (r: ProjectPicker)
        ensures
            r.selected == 0,
            r.scroll == 0,
    {
        ProjectPicker { selected: 0, scroll: 0 }
    }

    /// The rows of the list on a terminal of the given size, for `n`
    /// projects, after scrolling to show the selected row; none when the
    /// terminal is too small (under 20 columns or 4 rows, or no row left).
    pub fn layout(&mut self, n: usize, term_width: u16, term_height: u16) -> (r: Option<usize>)
        ensures
            final(self).selected == old(self).selected,
            ({
                let rows = (n as int + 1) / 2;
                let needed = (rows + 4) as u16;
                let left = if needed < sat_sub(term_height as int, 4) { needed as int } else { sat_sub(term_height as int, 4) };
                let list = sat_sub(left, 2);
                r == if term_height < 4 || term_width < 20 || list == 0 { None } else { Some(list as usize) }
            }),
            r matches Some(h) ==> final(self).scroll as int == rows_scrolled(old(self).selected as int / 2, old(self).scroll as int, h as int),
            r is None ==> final(self).scroll == old(self).scroll,
    {
        if term_height < 4 || term_width < 20 {
            return None;
        }
        let rows: usize = n / 2 + n % 2;
        proof {
            assert(rows as int == (n as int + 1) / 2);
        }
        #[verifier::truncate]
        let needed: u16 = (rows as u128 + 4) as u16;
        proof {
            assert(needed == ((n as int + 1) / 2 + 4) as u16);
        }
        let avail = term_height.saturating_sub(4);
        let left: u16 = if needed < avail { needed } else { avail };
        let list = left.saturating_sub(2) as usize;
        if list == 0 {
            return None;
        }
        let row = self.selected / 2;
        if row < self.scroll {
            self.scroll = row;
        }
        if row >= self.scroll && row - self.scroll >= list {
            self.scroll = row.saturating_sub(list - 1);
        }
        Some(list)
    }

    /// Applies a key to the menu over `projects` (none empty), the current
    /// project being `current` and pages being `page` rows: returns the
    /// menu's answer (see `picker_answer`), or `None` and moves the
    /// selection (see `picker_move`).
    pub fn handle_key(&mut self, key: Key, projects: &Vec<String>, current: &str, page: usize) -> (r: Option<ProjectAction>)
        requires
            projects@.len() > 0,
            old(self).selected < projects@.len(),
        ensures
            final(self).selected < projects@.len(),
            final(self).scroll == old(self).scroll,
            ({
                let name = projects@[old(self).selected as int]@;
                match picker_answer(key, name, current@) {
                    Some(a) => r matches Some(x) && answer_kind(x) == a
                        && (a is Switch || a is Rename || a is Delete ==> answer_name(x) == Some(name))
                        && final(self).selected == old(self).selected,
                    None => r is None && final(self).selected as int
                        == picker_move(old(self).selected as int, projects@.len() as int, page as int, key),
                }
            }),
    {
        let n = projects.len();
        let sel = self.selected;
        let name = projects[sel].clone();
        let is_default = name == String::from_str("default");
        match key {
            Key::Esc => { return Some(ProjectAction::NoAction); },
            Key::Enter => {
                if name == String::from_str(current) {
                    return Some(ProjectAction::NoAction);
                }
                return Some(ProjectAction::Switch(name));
            },
            Key::Char(c) => {
                if c == 'c' || c == 'с' {
                    return Some(ProjectAction::Create);
                } else if (c == 'r' || c == 'к') && !is_default {
                    return Some(ProjectAction::Rename(name));
                } else if (c == 'd' || c == 'в') && !is_default {
                    return Some(ProjectAction::Delete(name));
                }
            },
            Key::Up => {
                if sel / 2 > 0 {
                    self.selected = sel - 2;
                }
            },
            Key::Down => {
                if n - sel > 2 {
                    self.selected = sel + 2;
                }
            },
            Key::Left => {
                if sel % 2 > 0 {
                    self.selected = sel - 1;
                }
            },
            Key::Right => {
                if sel % 2 == 0 && sel + 1 < n {
                    self.selected = sel + 1;
                }
            },
            Key::PageUp => {
                let row = (sel / 2).saturating_sub(page);
                let t = row * 2;
                self.selected = if t >= n { n - 1 } else { t };
            },
            Key::PageDown => {
                let max_row = (n - 1) / 2;
                let row = if page < max_row - sel / 2 { sel / 2 + page } else { max_row };
                let t = row * 2;
                self.selected = if t >= n { n - 1 } else { t };
            },
            Key::Home => { self.selected = 0; },
            Key::End => { self.selected = n - 1; },
            _ => {},
        }
        None
    }
}

/// Law: in a one-line editor, typing a character and then Backspace gives
/// back the text and the cursor, when the line had room for the character.
pub proof fn law_line_type_then_erase(chars: Seq<char>, cursor: int, max_len: int, c: char)
    requires
        0 <= cursor <= chars.len(),
        chars.len() < max_len,
    ensures
        ({
            let typed = line_edit(chars, cursor, max_len, Key::Char(c));
            line_edit(typed.0, typed.1, max_len, Key::Backspace) == (chars, cursor)
        }),
{
    let typed = line_edit(chars, cursor, max_len, Key::Char(c));
    assert(typed.0.remove(cursor) =~= chars);
}

/// Law: in the multi-line editor, typing a character and then Backspace
/// gives back the text and the cursor, when the text had room for it.
pub proof fn law_text_type_then_erase(flat: Seq<char>, pos: int, max_total: int, width: nat, page: nat, c: char)
    requires
        0 <= pos <= flat.len(),
        flat.len() < max_total,
    ensures
        ({
            let typed = text_edit(flat, pos, max_total, width, page, Key::Char(c));
            text_edit(typed.0, typed.1, max_total, width, page, Key::Backspace) == (flat, pos)
        }),
{
    let typed = text_edit(flat, pos, max_total, width, page, Key::Char(c));
    assert(typed.0.remove(pos) =~= flat);
}

} // verus!
