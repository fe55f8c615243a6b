use vstd::prelude::*;
use unicode_width::{UnicodeWidthChar, UnicodeWidthStr};

verus! {

broadcast use vstd::string::group_string_axioms;

/// The characters of a string, in order.
pub fn chars_of(s: &str) -> (v: Vec<char>)
    ensures
        v@ == s@,
{
    let mut v: Vec<char> = Vec::new();
    for c in it: s.chars()
        invariant
            v@ == it.seq().take(it.index() as int),
    {
        v.push(c);
    }
    v
}

/// Calls `String::push`: appends one character.
#[verifier::external_body]
pub(crate) fn push_char(s: &mut String, c: char)
    ensures
        final(s)@ == old(s)@.push(c),
{
    s.push(c);
}

/// A string made of the given characters.
pub fn string_of(v: &Vec<char>) -> (s: String)
    ensures
        s@ == v@,
{
    let mut s = String::new();
    let mut i: usize = 0;
    while i < v.len()
        invariant
            i <= v.len(),
            s@ == v@.take(i as int),
        decreases v.len() - i,
    {
        push_char(&mut s, v[i]);
        proof {
            assert(v@.take(i as int + 1) =~= v@.take(i as int).push(v@[i as int]));
        }
        i = i + 1;
    }
    proof {
        assert(v@.take(i as int) =~= v@);
    }
    s
}

/// What `UnicodeWidthChar::width` returns for a character: its display
/// width in columns, or `None` for a control character.
pub uninterp spec fn unicode_char_width(c: char) -> Option<usize>;

/// What `UnicodeWidthStr::width` returns for a string: its display width in
/// columns (not always the sum of its characters' widths: some sequences
/// such as emoji ligatures and "\r\n" count differently).
pub uninterp spec fn unicode_str_width(s: Seq<char>) -> usize;

/// What `str::to_lowercase` returns for a string.
pub uninterp spec fn lowercase_of(s: Seq<char>) -> Seq<char>;

/// Calls `UnicodeWidthChar::width` of unicode-width: `None` exactly for the
/// C0 and C1 control characters, 1 for printable ASCII, at most 3 otherwise
/// (the crate's table has one character of width 3).
#[verifier::external_body]
fn char_width_of(c: char) -> (r: Option<usize>)
    ensures
        r == unicode_char_width(c),
        r is None <==> (c < '\u{20}' || ('\u{7F}' <= c && c < '\u{A0}')),
        ('\u{20}' <= c && c < '\u{7F}') ==> r == Some(1usize),
        r matches Some(w) ==> w <= 3,
{
    c.width()
}

/// Calls `UnicodeWidthStr::width` of unicode-width; the value is named, not stated.
#[verifier::external_body]
fn str_width_of(s: &str) -> (r: usize)
    ensures
        r == unicode_str_width(s@),
{
    s.width()
}

/// Calls `str::to_lowercase`; the value is named, not stated.
#[verifier::external_body]
pub(crate) fn to_lowercase(s: &str) -> (r: String)
    ensures
        r@ == lowercase_of(s@),
{
    s.to_lowercase()
}

/// The columns a character takes: its width, or 1 for a control character.
pub open spec fn char_cols(c: char) -> nat {
    match unicode_char_width(c) {
        Some(w) => w as nat,
        None => 1,
    }
}

/// The columns a character takes: its width, or 1 for a control character.
pub fn char_columns(c: char) -> (r: usize)
    ensures
        r == char_cols(c),
        r <= 3,
{
    match char_width_of(c) {
        Some(w) => w,
        None => 1,
    }
}

/// The display width of a string.
pub fn visual_width(s: &str) -> (r: usize)
    ensures
        r == unicode_str_width(s@),
{
    str_width_of(s)
}

/// Sum of the columns of the characters of a sequence.
pub open spec fn cols_sum(s: Seq<char>) -> nat
    decreases s.len(),
{
    if s.len() == 0 {
        0
    } else {
        cols_sum(s.drop_last()) + char_cols(s.last())
    }
}

/// Columns taken by the first `n` characters of a string.
pub fn visual_offset(s: &str, n: usize) -> (r: usize)
    requires
        cols_sum(s@.take(if n <= s@.len() { n as int } else { s@.len() as int })) <= usize::MAX,
    ensures
        r == cols_sum(s@.take(if n <= s@.len() { n as int } else { s@.len() as int })),
{
    let v = chars_of(s);
    let end: usize = if n <= v.len() { n } else { v.len() };
    let mut acc: usize = 0;
    let mut i: usize = 0;
    while i < end
        invariant
            end <= v@.len(),
            v@ == s@,
            i <= end,
            cols_sum(v@.take(end as int)) <= usize::MAX,
            acc == cols_sum(v@.take(i as int)),
        decreases end - i,
    {
        proof {
            assert(v@.take(i as int + 1).drop_last() =~= v@.take(i as int));
            lemma_cols_prefix(v@.take(end as int), i as int + 1);
            assert(v@.take(end as int).take(i as int + 1) =~= v@.take(i as int + 1));
        }
        acc = acc + char_columns(v[i]);
        i = i + 1;
    }
    acc
}

proof fn lemma_cols_prefix(s: Seq<char>, i: int)
    requires
        0 <= i <= s.len(),
    ensures
        cols_sum(s.take(i)) <= cols_sum(s),
    decreases s.len(),
{
    if i < s.len() {
        lemma_cols_prefix(s.drop_last(), i);
        assert(s.drop_last().take(i) =~= s.take(i));
    } else {
        assert(s.take(i) =~= s);
    }
}

/// At most `max_chars` characters of the text, with "…" in place of the rest
/// when it is longer; empty when `max_chars` is 0.
pub open spec fn truncated_chars(t: Seq<char>, max_chars: nat) -> Seq<char> {
    if max_chars == 0 {
        Seq::empty()
    } else if t.len() <= max_chars {
        t
    } else {
        t.take(max_chars as int).push('…')
    }
}

/// The text cut to `max_chars` characters with "…" after the cut (see `truncated_chars`).
pub fn truncate_text(text: &str, max_chars: usize) -> (r: String)
    ensures
        r@ == truncated_chars(text@, max_chars as nat),
{
    if max_chars == 0 {
        return String::new();
    }
    let v = chars_of(text);
    let mut result = String::new();
    let mut count: usize = 0;
    while count < v.len()
        invariant
            v@ == text@,
            count <= v.len(),
            count <= max_chars,
            max_chars > 0,
            result@ == v@.take(count as int),
        decreases v.len() - count,
    {
        if count == max_chars {
            push_char(&mut result, '…');
            return result;
        }
        push_char(&mut result, v[count]);
        proof {
            assert(v@.take(count as int + 1) =~= v@.take(count as int).push(v@[count as int]));
        }
        count = count + 1;
    }
    proof {
        assert(v@.take(count as int) =~= v@);
    }
    result
}

/// The longest prefix of `s` that fits in `max` columns; when a character
/// does not fit, "…" takes its place if at least one column is left.
pub open spec fn fit_width(s: Seq<char>, max: nat) -> Seq<char>
    decreases s.len(),
{
    if s.len() == 0 {
        Seq::empty()
    } else if char_cols(s[0]) > max {
        if 1 <= max {
            seq!['…']
        } else {
            Seq::empty()
        }
    } else {
        seq![s[0]] + fit_width(s.skip(1), (max - char_cols(s[0])) as nat)
    }
}

/// The text cut to fit in `max_width` columns (see `fit_width`).
pub fn truncate_by_width(s: &str, max_width: usize) -> (r: String)
    ensures
        r@ == fit_width(s@, max_width as nat),
{
    let v = chars_of(s);
    let mut res = String::new();
    let mut w: usize = 0;
    let mut i: usize = 0;
    proof {
        assert(v@.skip(0) =~= v@);
        assert(res@ + fit_width(v@, max_width as nat) =~= fit_width(v@, max_width as nat));
    }
    while i < v.len()
        invariant
            v@ == s@,
            i <= v.len(),
            w <= max_width,
            res@ + fit_width(v@.skip(i as int), (max_width - w) as nat) == fit_width(v@, max_width as nat),
        decreases v.len() - i,
    {
        let ch_w = char_columns(v[i]);
        proof {
            assert(v@.skip(i as int)[0] == v@[i as int]);
            assert(v@.skip(i as int).skip(1) =~= v@.skip(i as int + 1));
        }
        if ch_w > max_width - w {
            if 1 <= max_width - w {
                push_char(&mut res, '…');
            }
            proof {
                assert(res@ =~= fit_width(v@, max_width as nat));
            }
            return res;
        }
        let ghost before = res@;
        push_char(&mut res, v[i]);
        proof {
            let rest = fit_width(v@.skip(i as int + 1), (max_width - w - ch_w) as nat);
            assert(fit_width(v@.skip(i as int), (max_width - w) as nat) == seq![v@[i as int]] + rest);
            assert(res@ + rest =~= before + (seq![v@[i as int]] + rest));
        }
        w = w + ch_w;
        i = i + 1;
    }
    proof {
        assert(v@.skip(i as int) =~= Seq::<char>::empty());
        assert(res@ + Seq::<char>::empty() =~= res@);
    }
    res
}

/// The text cut to fit in `max_width` columns; empty when `max_width` is 0.
pub fn truncate_text_by_width(text: &str, max_width: usize) -> (r: String)
    ensures
        r@ == (if max_width == 0 { Seq::empty() } else { fit_width(text@, max_width as nat) }),
{
    if max_width == 0 {
        return String::new();
    }
    truncate_by_width(text, max_width)
}

/// Greedy wrapping: characters go onto the current piece while it fits in
/// `max` columns; a character that does not fit starts a new piece, unless
/// the current piece is still empty.
pub open spec fn split_go(s: Seq<char>, max: nat, cur: Seq<char>, cw: nat) -> Seq<Seq<char>>
    decreases s.len(),
{
    if s.len() == 0 {
        if cur.len() > 0 {
            seq![cur]
        } else {
            Seq::empty()
        }
    } else if cw + char_cols(s[0]) > max && cur.len() > 0 {
        seq![cur] + split_go(s.skip(1), max, seq![s[0]], char_cols(s[0]))
    } else {
        split_go(s.skip(1), max, cur.push(s[0]), cw + char_cols(s[0]))
    }
}

/// A line wrapped into pieces of at most `max` columns (see `split_go`); the
/// whole line when `max` is 0, and one empty piece for an empty line.
pub open spec fn split_lines(s: Seq<char>, max: nat) -> Seq<Seq<char>> {
    if max == 0 {
        seq![s]
    } else {
        let r = split_go(s, max, Seq::empty(), 0);
        if r.len() == 0 {
            seq![Seq::empty()]
        } else {
            r
        }
    }
}

/// The pieces joined back together.
pub open spec fn concat_lines(ss: Seq<Seq<char>>) -> Seq<char>
    decreases ss.len(),
{
    if ss.len() == 0 {
        Seq::empty()
    } else {
        ss[0] + concat_lines(ss.skip(1))
    }
}

pub open spec fn views_of(v: Seq<String>) -> Seq<Seq<char>> {
    v.map_values(|x: String| x@)
}

proof fn lemma_split_go_concat(s: Seq<char>, max: nat, cur: Seq<char>, cw: nat)
    ensures
        concat_lines(split_go(s, max, cur, cw)) == cur + s,
    decreases s.len(),
{
    if s.len() == 0 {
        if cur.len() > 0 {
            assert(seq![cur].skip(1) =~= Seq::<Seq<char>>::empty());
            assert(concat_lines(seq![cur]) == cur + concat_lines(seq![cur].skip(1)));
            assert(cur + Seq::<char>::empty() =~= cur);
        } else {
            assert(cur =~= Seq::<char>::empty());
        }
        assert(cur + s =~= cur);
    } else if cw + char_cols(s[0]) > max && cur.len() > 0 {
        let rest = split_go(s.skip(1), max, seq![s[0]], char_cols(s[0]));
        lemma_split_go_concat(s.skip(1), max, seq![s[0]], char_cols(s[0]));
        assert((seq![cur] + rest).skip(1) =~= rest);
        assert(cur + (seq![s[0]] + s.skip(1)) =~= cur + s);
    } else {
        lemma_split_go_concat(s.skip(1), max, cur.push(s[0]), cw + char_cols(s[0]));
        assert(cur.push(s[0]) + s.skip(1) =~= cur + s);
    }
}

proof fn lemma_split_go_pieces(s: Seq<char>, max: nat, cur: Seq<char>, cw: nat)
    requires
        cw == cols_sum(cur),
        cw <= max || cur.len() <= 1,
    ensures
        forall|k: int| 0 <= k < split_go(s, max, cur, cw).len() ==> (#[trigger] split_go(s, max, cur, cw)[k]).len() > 0
            && (cols_sum(split_go(s, max, cur, cw)[k]) <= max || split_go(s, max, cur, cw)[k].len() == 1),
    decreases s.len(),
{
    if s.len() == 0 {
        if cur.len() > 0 {
            assert(split_go(s, max, cur, cw) == seq![cur]);
        } else {
            assert(split_go(s, max, cur, cw) == Seq::<Seq<char>>::empty());
        }
    } else if cw + char_cols(s[0]) > max && cur.len() > 0 {
        let c = seq![s[0]];
        assert(c.drop_last() =~= Seq::<char>::empty());
        assert(c.last() == s[0]);
        assert(cols_sum(c) == cols_sum(c.drop_last()) + char_cols(c.last()));
        lemma_split_go_pieces(s.skip(1), max, c, char_cols(s[0]));
        let rest = split_go(s.skip(1), max, c, char_cols(s[0]));
        assert(split_go(s, max, cur, cw) == seq![cur] + rest);
        assert forall|k: int| 0 <= k < (seq![cur] + rest).len() implies (#[trigger] (seq![cur] + rest)[k]).len() > 0
            && (cols_sum((seq![cur] + rest)[k]) <= max || (seq![cur] + rest)[k].len() == 1) by {
            if k > 0 {
                assert((seq![cur] + rest)[k] == rest[k - 1]);
            }
        }
    } else {
        let c = cur.push(s[0]);
        assert(c.drop_last() =~= cur);
        lemma_split_go_pieces(s.skip(1), max, c, cw + char_cols(s[0]));
        assert(split_go(s, max, cur, cw) == split_go(s.skip(1), max, c, cw + char_cols(s[0])));
    }
}

/// Law: wrapping a line loses and adds nothing: the pieces joined give the
/// line back; every piece is non-empty and fits in `max` columns unless it
/// is a single character wider than that.
pub proof fn law_split_rejoins(s: Seq<char>, max: nat)
    requires
        max > 0,
        s.len() > 0,
    ensures
        concat_lines(split_lines(s, max)) == s,
        forall|k: int| 0 <= k < split_lines(s, max).len() ==> (#[trigger] split_lines(s, max)[k]).len() > 0
            && (cols_sum(split_lines(s, max)[k]) <= max || split_lines(s, max)[k].len() == 1),
{
    lemma_split_go_concat(s, max, Seq::empty(), 0);
    lemma_split_go_pieces(s, max, Seq::empty(), 0);
    assert(Seq::<char>::empty() + s =~= s);
    if split_go(s, max, Seq::empty(), 0).len() == 0 {
        assert(concat_lines(split_go(s, max, Seq::empty(), 0)) =~= Seq::<char>::empty());
    }
}

/// The line wrapped into pieces that fit in `max_width` columns (see `split_lines`).
pub fn split_line_by_width(line: &str, max_width: usize) -> (r: Vec<String>)
    ensures
        views_of(r@) == split_lines(line@, max_width as nat),
{
    if max_width == 0 {
        let mut r: Vec<String> = Vec::new();
        r.push(String::from_str(line));
        proof {
            assert(views_of(r@) =~= seq![line@]);
        }
        return r;
    }
    let v = chars_of(line);
    let mut result: Vec<String> = Vec::new();
    let mut current: Vec<char> = Vec::new();
    let mut current_width: usize = 0;
    let mut i: usize = 0;
    proof {
        assert(v@.skip(0) =~= v@);
        assert(views_of(result@) + split_go(v@, max_width as nat, current@, 0) =~= split_go(v@, max_width as nat, Seq::empty(), 0));
    }
    while i < v.len()
        invariant
            v@ == line@,
            max_width > 0,
            i <= v.len(),
            current@.len() == 0 ==> current_width == 0,
            current_width <= max_width || current@.len() <= 1,
            current_width <= 3 || current_width <= max_width,
            views_of(result@) + split_go(v@.skip(i as int), max_width as nat, current@, current_width as nat)
                == split_go(v@, max_width as nat, Seq::empty(), 0),
        decreases v.len() - i,
    {
        let c = v[i];
        let ch_w = char_columns(c);
        proof {
            assert(v@.skip(i as int)[0] == c);
            assert(v@.skip(i as int).skip(1) =~= v@.skip(i as int + 1));
        }
        let too_wide = current_width > max_width || ch_w > max_width - current_width;
        let ghost before = views_of(result@);
        if too_wide && current.len() > 0 {
            let piece = string_of(&current);
            result.push(piece);
            current = Vec::new();
            current.push(c);
            current_width = ch_w;
            proof {
                assert(current@ =~= seq![c]);
                assert(views_of(result@) =~= before.push(piece@));
                let rest = split_go(v@.skip(i as int + 1), max_width as nat, seq![c], ch_w as nat);
                assert(before.push(piece@) + rest =~= before + (seq![piece@] + rest));
            }
        } else {
            current.push(c);
            current_width = current_width + ch_w;
            proof {
                assert(views_of(result@) =~= before);
            }
        }
        i = i + 1;
    }
    let ghost before = views_of(result@);
    proof {
        assert(v@.skip(i as int) =~= Seq::<char>::empty());
    }
    if current.len() > 0 {
        let piece = string_of(&current);
        result.push(piece);
        proof {
            assert(views_of(result@) =~= before + seq![piece@]);
        }
    } else {
        proof {
            assert(before + Seq::<Seq<char>>::empty() =~= before);
        }
    }
    if result.len() == 0 {
        result.push(String::new());
        proof {
            assert(views_of(result@) =~= seq![Seq::<char>::empty()]);
        }
    }
    result
}

/// Total number of characters of the lines.
pub open spec fn lens_sum(ls: Seq<Seq<char>>) -> nat
    decreases ls.len(),
{
    if ls.len() == 0 {
        0
    } else {
        lens_sum(ls.drop_last()) + ls.last().len()
    }
}

/// The character index of column `col` of line `row` in the lines laid end
/// to end; the column is cut to the line's length, and a row past the last
/// gives the total length.
pub open spec fn char_index_of(ls: Seq<Seq<char>>, row: nat, col: nat) -> nat {
    if row < ls.len() {
        lens_sum(ls.take(row as int)) + (if col <= ls[row as int].len() { col } else { ls[row as int].len() })
    } else {
        lens_sum(ls)
    }
}

pub proof fn lemma_lens_prefix(ls: Seq<Seq<char>>, i: int)
    requires
        0 <= i <= ls.len(),
    ensures
        lens_sum(ls.take(i)) <= lens_sum(ls),
    decreases ls.len(),
{
    if i < ls.len() {
        lemma_lens_prefix(ls.drop_last(), i);
        assert(ls.drop_last().take(i) =~= ls.take(i));
    } else {
        assert(ls.take(i) =~= ls);
    }
}

/// The character index of (row, col) in the lines (see `char_index_of`).
pub fn total_char_index(lines: &[String], row: usize, col: usize) -> (r: usize)
    requires
        lens_sum(views_of(lines@)) <= usize::MAX,
    ensures
        r == char_index_of(views_of(lines@), row as nat, col as nat),
{
    let ghost ls = views_of(lines@);
    let mut idx: usize = 0;
    let mut i: usize = 0;
    while i < lines.len()
        invariant
            ls == views_of(lines@),
            ls.len() == lines@.len(),
            lens_sum(ls) <= usize::MAX,
            i <= lines.len(),
            i <= row,
            idx == lens_sum(ls.take(i as int)),
        decreases lines.len() - i,
    {
        let len = lines[i].as_str().unicode_len();
        proof {
            assert(ls[i as int] == lines@[i as int]@);
            assert(ls.take(i as int + 1).drop_last() =~= ls.take(i as int));
            lemma_lens_prefix(ls, i as int + 1);
        }
        if i < row {
            idx = idx + len;
        } else {
            let add = if col <= len { col } else { len };
            return idx + add;
        }
        i = i + 1;
    }
    proof {
        assert(ls.take(i as int) =~= ls);
    }
    idx
}

/// The (row, col) of the character index in the lines laid end to end,
/// searching from line `i`: the first line that reaches the index holds it;
/// past the end, the end of the last line, or (0, 0) when there are no lines.
pub open spec fn position_go(ls: Seq<Seq<char>>, k: nat, i: nat) -> (nat, nat)
    decreases ls.len() - i,
{
    if i >= ls.len() {
        if ls.len() == 0 {
            (0, 0)
        } else {
            ((ls.len() - 1) as nat, ls.last().len())
        }
    } else if k <= ls[i as int].len() {
        (i, k)
    } else {
        position_go(ls, (k - ls[i as int].len()) as nat, i + 1)
    }
}

pub open spec fn position_of(ls: Seq<Seq<char>>, k: nat) -> (nat, nat) {
    position_go(ls, k, 0)
}

/// The (row, col) of a character index (see `position_of`).
pub fn find_position_from_index(lines: &[String], index: usize) -> (r: (usize, usize))
    ensures
        (r.0 as nat, r.1 as nat) == position_of(views_of(lines@), index as nat),
{
    let ghost ls = views_of(lines@);
    let ghost k0 = index as nat;
    let mut rem = index;
    let mut i: usize = 0;
    while i < lines.len()
        invariant
            ls == views_of(lines@),
            ls.len() == lines@.len(),
            i <= lines.len(),
            k0 == index as nat,
            position_go(ls, rem as nat, i as nat) == position_of(ls, k0),
        decreases lines.len() - i,
    {
        let len = lines[i].as_str().unicode_len();
        proof {
            assert(ls[i as int] == lines@[i as int]@);
        }
        if rem <= len {
            proof {
                assert(position_go(ls, rem as nat, i as nat) == (i as nat, rem as nat));
            }
            return (i, rem);
        }
        rem = rem - len;
        i = i + 1;
    }
    if lines.len() == 0 {
        (0, 0)
    } else {
        let last = lines.len() - 1;
        proof {
            assert(ls[last as int] == lines@[last as int]@);
        }
        (last, lines[last].as_str().unicode_len())
    }
}

proof fn lemma_position_go(ls: Seq<Seq<char>>, k: nat, i: nat)
    requires
        i <= ls.len(),
        lens_sum(ls.take(i as int)) + k <= lens_sum(ls),
    ensures
        ls.len() > 0 ==> position_go(ls, k, i).0 < ls.len()
            && position_go(ls, k, i).1 <= ls[position_go(ls, k, i).0 as int].len()
            && lens_sum(ls.take(position_go(ls, k, i).0 as int)) + position_go(ls, k, i).1 == lens_sum(ls.take(i as int)) + k,
        ls.len() == 0 ==> position_go(ls, k, i) == (0nat, 0nat) && k == 0,
    decreases ls.len() - i,
{
    if i >= ls.len() {
        assert(ls.take(i as int) =~= ls);
        if ls.len() > 0 {
            assert(ls.take(ls.len() - 1) =~= ls.drop_last());
        }
    } else if k <= ls[i as int].len() {
    } else {
        assert(ls.take(i as int + 1).drop_last() =~= ls.take(i as int));
        lemma_position_go(ls, (k - ls[i as int].len()) as nat, i + 1);
    }
}

proof fn lemma_position_go_bound(ls: Seq<Seq<char>>, k: nat, i: nat)
    requires
        ls.len() > 0,
    ensures
        position_go(ls, k, i).0 < ls.len(),
        position_go(ls, k, i).1 <= ls[position_go(ls, k, i).0 as int].len(),
    decreases ls.len() - i,
{
    if i < ls.len() && k > ls[i as int].len() {
        lemma_position_go_bound(ls, (k - ls[i as int].len()) as nat, i + 1);
    }
}

/// The position of any index is a place in the lines, when there are lines.
pub proof fn lemma_position_bound(ls: Seq<Seq<char>>, k: nat)
    requires
        ls.len() > 0,
    ensures
        position_of(ls, k).0 < ls.len(),
        position_of(ls, k).1 <= ls[position_of(ls, k).0 as int].len(),
{
    lemma_position_go_bound(ls, k, 0);
}

/// Law: the position of a character index, turned back into an index, is
/// that index, for every index up to the total length of the lines.
pub proof fn law_position_roundtrip(ls: Seq<Seq<char>>, k: nat)
    requires
        k <= lens_sum(ls),
    ensures
        char_index_of(ls, position_of(ls, k).0, position_of(ls, k).1) == k,
{
    assert(ls.take(0) =~= Seq::<Seq<char>>::empty());
    lemma_position_go(ls, k, 0);
}

/// `needle` occurs in `hay` as a run of consecutive characters.
pub open spec fn occurs_in(needle: Seq<char>, hay: Seq<char>) -> bool {
    exists|i: int| 0 <= i && i + needle.len() <= hay.len() && #[trigger] hay.subrange(i, i + needle.len()) == needle
}

/// Whether `needle` occurs in `hay` (an empty needle occurs everywhere).
pub fn contains_str(hay: &str, needle: &str) -> (r: bool)
    ensures
        r == occurs_in(needle@, hay@),
{
    let h = chars_of(hay);
    let n = chars_of(needle);
    if n.len() > h.len() {
        proof {
            assert forall|i: int| 0 <= i && i + n@.len() <= h@.len() implies #[trigger] h@.subrange(i, i + n@.len()) != n@ by {}
        }
        return false;
    }
    let last = h.len() - n.len();
    let mut i: usize = 0;
    while i <= last
        invariant
            h@ == hay@,
            n@ == needle@,
            last == h@.len() - n@.len(),
            n@.len() <= h@.len(),
            h@.len() <= usize::MAX,
            i <= last + 1,
            forall|k: int| 0 <= k < i ==> #[trigger] h@.subrange(k, k + n@.len()) != n@,
        decreases last + 1 - i,
    {
        let mut j: usize = 0;
        while j < n.len() && h[i + j] == n[j]
            invariant
                h@ == hay@,
                n@ == needle@,
                n@.len() <= h@.len(),
                h@.len() <= usize::MAX,
                i <= last,
                last == h@.len() - n@.len(),
                j <= n@.len(),
                forall|m: int| 0 <= m < j ==> h@[i + m] == n@[m],
            decreases n.len() - j,
        {
            j = j + 1;
        }
        if j == n.len() {
            proof {
                assert(h@.subrange(i as int, i as int + n@.len()) =~= n@);
            }
            return true;
        }
        proof {
            assert(h@.subrange(i as int, i as int + n@.len())[j as int] != n@[j as int]);
        }
        i = i + 1;
    }
    false
}

/// The characters with the Unicode White_Space property.
pub open spec fn is_white(c: char) -> bool {
    c == ' ' || ('\t' <= c && c <= '\r') || c == '\u{85}' || c == '\u{A0}' || c == '\u{1680}'
        || ('\u{2000}' <= c && c <= '\u{200A}') || c == '\u{2028}' || c == '\u{2029}' || c == '\u{202F}'
        || c == '\u{205F}' || c == '\u{3000}'
}

/// Whether the character has the Unicode White_Space property, as
/// `char::is_whitespace` tells it (the 25 characters of `is_white`).
fn char_is_whitespace(c: char) -> (r: bool)
    ensures
        r == is_white(c),
{
    c == ' ' || ('\t' <= c && c <= '\r') || c == '\u{85}' || c == '\u{A0}' || c == '\u{1680}'
        || ('\u{2000}' <= c && c <= '\u{200A}') || c == '\u{2028}' || c == '\u{2029}' || c == '\u{202F}'
        || c == '\u{205F}' || c == '\u{3000}'
}

/// What `char::to_lowercase` yields for a character.
pub uninterp spec fn char_lowercase(c: char) -> Seq<char>;

/// Calls `char::to_lowercase`; what it yields is named, not stated.
#[verifier::external_body]
fn lowercase_chars(c: char) -> (r: Vec<char>)
    ensures
        r@ == char_lowercase(c),
{
    c.to_lowercase().collect()
}

/// The characters of a text that are not white space, each lowercased.
pub open spec fn squeezed_lower(s: Seq<char>) -> Seq<char>
    decreases s.len(),
{
    if s.len() == 0 {
        Seq::empty()
    } else {
        squeezed_lower(s.drop_last()) + (if is_white(s.last()) { Seq::empty() } else { char_lowercase(s.last()) })
    }
}

/// A tag as typed made into a tag: white space dropped, lowercased, at most
/// 32 characters.
pub open spec fn cleaned_tag(s: Seq<char>) -> Seq<char> {
    let t = squeezed_lower(s);
    if t.len() <= 32 { t } else { t.take(32) }
}

/// Makes a typed tag into a tag (see `cleaned_tag`).
pub fn clean_tag(raw: &str) -> (r: String)
    ensures
        r@ == cleaned_tag(raw@),
{
    let v = chars_of(raw);
    let mut out: Vec<char> = Vec::new();
    let mut i: usize = 0;
    while i < v.len()
        invariant
            i <= v@.len(),
            v@ == raw@,
            out@ == squeezed_lower(v@.take(i as int)),
        decreases v.len() - i,
    {
        proof {
            assert(v@.take(i as int + 1).drop_last() =~= v@.take(i as int));
        }
        let c = v[i];
        if !char_is_whitespace(c) {
            let low = lowercase_chars(c);
            let ghost before = out@;
            let mut k: usize = 0;
            while k < low.len()
                invariant
                    k <= low@.len(),
                    out@ == before + low@.take(k as int),
                decreases low.len() - k,
            {
                out.push(low[k]);
                proof {
                    assert(low@.take(k as int + 1) =~= low@.take(k as int).push(low@[k as int]));
                }
                k = k + 1;
            }
            proof {
                assert(low@.take(k as int) =~= low@);
            }
        } else {
            proof {
                assert(out@ =~= out@ + Seq::<char>::empty());
            }
        }
        i = i + 1;
    }
    proof {
        assert(v@.take(i as int) =~= v@);
    }
    let n: usize = if out.len() <= 32 { out.len() } else { 32 };
    let mut kept: Vec<char> = Vec::new();
    let mut j: usize = 0;
    while j < n
        invariant
            n <= out@.len(),
            j <= n,
            kept@ == out@.take(j as int),
        decreases n - j,
    {
        kept.push(out[j]);
        proof {
            assert(out@.take(j as int + 1) =~= out@.take(j as int).push(out@[j as int]));
        }
        j = j + 1;
    }
    proof {
        if out@.len() <= 32 {
            assert(out@.take(n as int) =~= out@);
        }
    }
    string_of(&kept)
}

} // verus!
