use vstd::prelude::*;
use crate::text::{push_char, truncated_chars, truncate_text};

verus! {

/// The progress bar's animation: the cells filled on screen and the
/// counts and length it was last drawn with.
pub struct ProgressState {
    pub animated_filled: usize,
    pub last_done: usize,
    pub last_total: usize,
    pub last_bar_len: usize,
}

/// The decimal digits of a number.
pub open spec fn decimal(n: nat) -> Seq<char>
    decreases n,
{
    if n < 10 {
        seq![digit_char(n)]
    } else {
        decimal(n / 10).push(digit_char(n % 10))
    }
}

pub open spec fn digit_char(d: nat) -> char {
    if d == 0 { '0' } else if d == 1 { '1' } else if d == 2 { '2' } else if d == 3 { '3' } else if d == 4 { '4' }
    else if d == 5 { '5' } else if d == 6 { '6' } else if d == 7 { '7' } else if d == 8 { '8' } else { '9' }
}

fn digit_of(d: usize) -> (c: char)
    requires
        d < 10,
    ensures
        c == digit_char(d as nat),
{
    if d == 0 { '0' } else if d == 1 { '1' } else if d == 2 { '2' } else if d == 3 { '3' } else if d == 4 { '4' }
    else if d == 5 { '5' } else if d == 6 { '6' } else if d == 7 { '7' } else if d == 8 { '8' } else { '9' }
}

/// A number written in decimal.
pub fn decimal_string(n: usize) -> (r: String)
    ensures
        r@ == decimal(n as nat),
    decreases n,
{
    if n < 10 {
        let mut s = String::new();
        push_char(&mut s, digit_of(n));
        proof {
            assert(s@ =~= seq![digit_char(n as nat)]);
        }
        s
    } else {
        let mut s = decimal_string(n / 10);
        push_char(&mut s, digit_of(n % 10));
        s
    }
}

/// The bar for `done` of `total` tasks drawn `width` columns wide: the
/// percentage done, the bar's length (12 columns less) and its filled
/// cells; none when there are no tasks or the bar would be too short.
pub open spec fn bar_layout_spec(done: nat, total: nat, width: nat) -> Option<(nat, nat, nat)> {
    if total == 0 || width < 10 || (width - 12 < 5) {
        None
    } else {
        let bar_len = (width - 12) as nat;
        Some((done * 100 / total, bar_len, bar_len * done / total))
    }
}

/// The geometry of the progress bar (see `bar_layout_spec`).
pub fn bar_layout(done: usize, total: usize, width: usize) -> (r: Option<(usize, usize, usize)>)
    requires
        done <= total,
    ensures
        match r {
            Some(t) => bar_layout_spec(done as nat, total as nat, width as nat) == Some((t.0 as nat, t.1 as nat, t.2 as nat)),
            None => bar_layout_spec(done as nat, total as nat, width as nat) is None,
        },
{
    if total == 0 || width < 10 {
        return None;
    }
    let bar_len = width.saturating_sub(12);
    if bar_len < 5 {
        return None;
    }
    proof {
        assert((bar_len as int) * (done as int) <= 0xffff_ffff_ffff_ffff * 0xffff_ffff_ffff_ffffint) by (nonlinear_arith)
            requires
                bar_len <= 0xffff_ffff_ffff_ffffint,
                done <= 0xffff_ffff_ffff_ffffint,
        ;
    }
    let percent = (done as u128 * 100) / total as u128;
    let filled = (bar_len as u128 * done as u128) / total as u128;
    proof {
        assert((done as int) * 100 / (total as int) <= 100) by (nonlinear_arith)
            requires
                done <= total,
                total > 0,
        ;
        assert((bar_len as int) * (done as int) / (total as int) <= bar_len) by (nonlinear_arith)
            requires
                done <= total,
                total > 0,
        ;
    }
    Some((percent as usize, bar_len, filled as usize))
}

impl ProgressState {
    /// A bar not drawn yet.
    pub fn new() -> (r: ProgressState)
        ensures
            r.animated_filled == 0,
            r.last_done == 0,
            r.last_total == 0,
            r.last_bar_len == 0,
    {
        ProgressState { animated_filled: 0, last_done: 0, last_total: 0, last_bar_len: 0 }
    }

    /// One frame of the animation towards `target` filled cells of a bar of
    /// `bar_len`: when the counts changed since the last frame, the filled
    /// cells move one step towards the target; otherwise they jump to it.
    pub fn step(&mut self, done: usize, total: usize, bar_len: usize, target: usize)
        ensures
            final(self).last_done == done,
            final(self).last_total == total,
            final(self).last_bar_len == bar_len,
            (done != old(self).last_done || total != old(self).last_total) ==> final(self).animated_filled == (
                if old(self).animated_filled < target {
                    old(self).animated_filled + 1
                } else if old(self).animated_filled > target {
                    old(self).animated_filled - 1
                } else {
                    old(self).animated_filled as int
                }),
            (done == old(self).last_done && total == old(self).last_total) ==> final(self).animated_filled == target,
    {
        if done != self.last_done || total != self.last_total {
            self.last_done = done;
            self.last_total = total;
            self.last_bar_len = bar_len;
            if self.animated_filled < target {
                self.animated_filled = self.animated_filled + 1;
            } else if self.animated_filled > target {
                self.animated_filled = self.animated_filled - 1;
            }
        } else {
            self.last_bar_len = bar_len;
            self.animated_filled = target;
        }
    }
}

/// The bar's cells: `filled` full cells, then empty ones up to `bar_len`.
pub open spec fn bar_cells(filled: nat, bar_len: nat) -> Seq<char> {
    Seq::new(bar_len, |i: int| if i < filled { '█' } else { '░' })
}

/// The line of the progress bar: `[cells] p% done/total`, cut to `width`
/// characters with "…".
pub open spec fn bar_line_spec(filled: nat, bar_len: nat, percent: nat, done: nat, total: nat, width: nat) -> Seq<char> {
    truncated_chars(bar_whole(filled, bar_len, percent, done, total), width)
}

/// The progress bar's line before any cut: the cells in brackets, then
/// "percent% done/total".
pub open spec fn bar_whole(filled: nat, bar_len: nat, percent: nat, done: nat, total: nat) -> Seq<char> {
    seq!['['] + bar_cells(filled, bar_len) + seq![']', ' '] + decimal(percent) + seq!['%', ' ']
        + decimal(done) + seq!['/'] + decimal(total)
}

/// Whether the line of the progress bar is drawn in `width` columns: only
/// when it fits there. A line that had to be cut is one character too long
/// (see `law_bar_drawn_whole`), so it is not drawn.
pub fn bar_fits(line: &String, width: usize) -> (r: bool)
    ensures
        r == (line@.len() <= width),
{
    crate::text::chars_of(line.as_str()).len() <= width
}

/// Law: a line of the progress bar that fits its width is the whole line,
/// ending with "percent% done/total"; a cut one never fits.
pub proof fn law_bar_drawn_whole(filled: nat, bar_len: nat, percent: nat, done: nat, total: nat, width: nat)
    requires
        width > 0,
    ensures
        bar_line_spec(filled, bar_len, percent, done, total, width).len() <= width
            <==> bar_whole(filled, bar_len, percent, done, total).len() <= width,
        bar_line_spec(filled, bar_len, percent, done, total, width).len() <= width
            ==> bar_line_spec(filled, bar_len, percent, done, total, width) == bar_whole(filled, bar_len, percent, done, total),
{
}

fn push_all(s: &mut String, t: &String)
    ensures
        final(s)@ == old(s)@ + t@,
{
    let v = crate::text::chars_of(t.as_str());
    let mut i: usize = 0;
    while i < v.len()
        invariant
            i <= v@.len(),
            v@ == t@,
            s@ == old(s)@ + v@.take(i as int),
        decreases v.len() - i,
    {
        push_char(s, v[i]);
        proof {
            assert(v@.take(i as int + 1) =~= v@.take(i as int).push(v@[i as int]));
        }
        i = i + 1;
    }
    proof {
        assert(v@.take(i as int) =~= v@);
    }
}

/// The line of the progress bar (see `bar_line_spec`).
pub fn bar_line(filled: usize, bar_len: usize, percent: usize, done: usize, total: usize, width: usize) -> (r: String)
    ensures
        r@ == bar_line_spec(filled as nat, bar_len as nat, percent as nat, done as nat, total as nat, width as nat),
{
    let mut line = String::new();
    push_char(&mut line, '[');
    let mut i: usize = 0;
    while i < bar_len
        invariant
            i <= bar_len,
            line@ == seq!['['] + bar_cells(filled as nat, bar_len as nat).take(i as int),
        decreases bar_len - i,
    {
        let c = if i < filled { '█' } else { '░' };
        push_char(&mut line, c);
        proof {
            assert(bar_cells(filled as nat, bar_len as nat).take(i as int + 1)
                =~= bar_cells(filled as nat, bar_len as nat).take(i as int).push(c));
        }
        i = i + 1;
    }
    proof {
        assert(bar_cells(filled as nat, bar_len as nat).take(i as int) =~= bar_cells(filled as nat, bar_len as nat));
    }
    push_char(&mut line, ']');
    push_char(&mut line, ' ');
    push_all(&mut line, &decimal_string(percent));
    push_char(&mut line, '%');
    push_char(&mut line, ' ');
    push_all(&mut line, &decimal_string(done));
    push_char(&mut line, '/');
    push_all(&mut line, &decimal_string(total));
    proof {
        let expect = seq!['['] + bar_cells(filled as nat, bar_len as nat) + seq![']', ' '] + decimal(percent as nat)
            + seq!['%', ' '] + decimal(done as nat) + seq!['/'] + decimal(total as nat);
        assert(line@ =~= expect);
    }
    truncate_text(line.as_str(), width)
}

/// Index of a tag's colour among `colors`: a rolling hash of its characters
/// (times 31 plus the character, wrapping), modulo the number of colours.
pub open spec fn tag_hash(s: Seq<char>) -> u64
    decreases s.len(),
{
    if s.len() == 0 {
        0
    } else {
        tag_hash(s.drop_last()).wrapping_mul(31).wrapping_add(s.last() as u64)
    }
}

/// The place of a tag's colour among `colors` colours (see `tag_hash`).
pub fn tag_color_index(tag: &str, colors: u64) -> (r: usize)
    requires
        0 < colors <= usize::MAX,
    ensures
        r as u64 == tag_hash(tag@) % colors,
{
    let v = crate::text::chars_of(tag);
    let mut h: u64 = 0;
    let mut i: usize = 0;
    while i < v.len()
        invariant
            i <= v@.len(),
            v@ == tag@,
            h == tag_hash(v@.take(i as int)),
        decreases v.len() - i,
    {
        proof {
            assert(v@.take(i as int + 1).drop_last() =~= v@.take(i as int));
        }
        h = h.wrapping_mul(31).wrapping_add(v[i] as u64);
        i = i + 1;
    }
    proof {
        assert(v@.take(i as int) =~= v@);
    }
    (h % colors) as usize
}

} // verus!
