//! The side-by-side format: the lines of both files in two columns, with a
//! marker between them.

use vstd::prelude::*;
use vstd::utf8::{valid_utf8, decode_utf8};
use crate::lines::{lines_of, text_lines, count_nl, line_count, lemma_text_line_count};
use crate::script::{DiffOp, left_count, right_count, lcs_script, diff_size_ok, diff_lines,
    lemma_diff_size_mono, lemma_fits_step, lemma_count_step, lemma_count_prefix, lemma_take_all, fits};
use crate::text::{repeat, push_all, push_repeat};
use crate::unicode::{str_width, utf8_str, display_width};
use crate::params::Params;

verus! {

/// The narrowest gutter between the two columns.
pub const GUTTER_WIDTH_MIN: usize = 3;

// ---------------------------------------------------------------------------
// Characters
// ---------------------------------------------------------------------------

/// The length of the shortest prefix of `s`, from `k` bytes up to `max`
/// bytes, that is valid UTF-8; 0 when there is none.
pub open spec fn valid_prefix_len(s: Seq<u8>, k: int, max: int) -> int
    decreases max + 1 - k,
{
    if k > max || k < 1 {
        0
    } else if valid_utf8(s.take(k)) {
        k
    } else {
        valid_prefix_len(s, k + 1, max)
    }
}

pub open spec fn min4(n: int) -> int {
    if n < 4 { n } else { 4 }
}

/// The number of bytes of the first character of a nonempty `s`: the
/// shortest valid UTF-8 prefix of at most four bytes, else a single byte.
pub open spec fn char_len(s: Seq<u8>) -> int {
    let k = valid_prefix_len(s, 1, min4(s.len() as int));
    if k == 0 { 1 } else { k }
}

/// The columns of the first character of a nonempty `s`: the display width of
/// the character, or 1 for a byte that starts no character.
pub open spec fn char_width(s: Seq<u8>) -> int {
    let k = valid_prefix_len(s, 1, min4(s.len() as int));
    if k == 0 { 1 } else { str_width(decode_utf8(s.take(k))) as int }
}

proof fn lemma_valid_prefix_len(s: Seq<u8>, k: int, max: int)
    ensures
        valid_prefix_len(s, k, max) == 0 || (k <= valid_prefix_len(s, k, max) <= max && 1 <= valid_prefix_len(s, k, max)),
        valid_prefix_len(s, k, max) != 0 ==> valid_utf8(s.take(valid_prefix_len(s, k, max))),
    decreases max + 1 - k,
{
    if k <= max && k >= 1 && !valid_utf8(s.take(k)) {
        lemma_valid_prefix_len(s, k + 1, max);
    }
}

/// The characters of a line in order, each as its bytes and its width in
/// columns, as the side-by-side format reads them one after the other.
pub open spec fn char_steps(s: Seq<u8>) -> Seq<(Seq<u8>, int)>
    decreases s.len(),
{
    if s.len() == 0 {
        Seq::empty()
    } else {
        let k = char_len(s);
        if 1 <= k <= s.len() {
            seq![(s.take(k), char_width(s))] + char_steps(s.skip(k))
        } else {
            Seq::empty()
        }
    }
}

/// The bytes of the steps, one after the other.
pub open spec fn joined_steps(ps: Seq<(Seq<u8>, int)>) -> Seq<u8>
    decreases ps.len(),
{
    if ps.len() == 0 {
        Seq::empty()
    } else {
        ps[0].0 + joined_steps(ps.drop_first())
    }
}

proof fn lemma_char_len_range(s: Seq<u8>)
    requires
        s.len() > 0,
    ensures
        1 <= char_len(s) <= s.len(),
{
    lemma_valid_prefix_len(s, 1, min4(s.len() as int));
}

/// One step of the walk: one to four bytes that are either the UTF-8
/// encoding of a single character, with the display width of that text, or a
/// single byte that starts no character, one column wide.
pub open spec fn char_step_ok(p: Seq<u8>, w: int) -> bool {
    &&& 1 <= p.len() <= 4
    &&& (valid_utf8(p) && decode_utf8(p).len() == 1 && w == str_width(decode_utf8(p)) as int) || (p.len() == 1 && w == 1)
}

/// No prefix shorter than the one `valid_prefix_len` finds is valid UTF-8.
proof fn lemma_valid_prefix_least(s: Seq<u8>, k: int, max: int)
    requires
        1 <= k,
    ensures
        forall|j: int| k <= j <= max && (valid_prefix_len(s, k, max) == 0 || j < valid_prefix_len(s, k, max))
            ==> !valid_utf8(#[trigger] s.take(j)),
    decreases max + 1 - k,
{
    if k <= max && k >= 1 && !valid_utf8(s.take(k)) {
        lemma_valid_prefix_least(s, k + 1, max);
    }
}

/// Valid UTF-8 with no shorter valid prefix encodes a single character.
proof fn lemma_least_valid_is_one_char(q: Seq<u8>)
    requires
        q.len() > 0,
        valid_utf8(q),
        forall|j: int| 1 <= j < q.len() ==> !valid_utf8(#[trigger] q.take(j)),
    ensures
        decode_utf8(q).len() == 1,
{
    let l = vstd::utf8::length_of_first_scalar(q);
    assert(vstd::utf8::valid_first_scalar(q));
    assert(1 <= l <= q.len());
    if l < q.len() {
        let t = q.take(l);
        assert(t[0] == q[0]);
        assert(l >= 2 ==> t[1] == q[1]);
        assert(l >= 3 ==> t[2] == q[2]);
        assert(l >= 4 ==> t[3] == q[3]);
        assert(vstd::utf8::valid_leading_and_continuation_bytes_first_codepoint(t));
        assert(vstd::utf8::decode_first_codepoint(t) == vstd::utf8::decode_first_codepoint(q));
        assert(vstd::utf8::length_of_first_codepoint(t) == vstd::utf8::length_of_first_codepoint(q));
        assert(vstd::utf8::valid_first_scalar(t));
        assert(vstd::utf8::pop_first_scalar(t) =~= Seq::<u8>::empty());
        assert(valid_utf8(Seq::<u8>::empty()));
        assert(valid_utf8(vstd::utf8::pop_first_scalar(t)));
        assert(valid_utf8(t));
        assert(!valid_utf8(q.take(l)));
    }
    assert(vstd::utf8::pop_first_scalar(q) =~= Seq::<u8>::empty());
    assert(decode_utf8(vstd::utf8::pop_first_scalar(q)) =~= Seq::<char>::empty());
}

/// Walking a line character by character covers it: the bytes of the
/// characters, in order, are the line; each step is a character or a single
/// byte that starts none (`char_step_ok`); and there are no more steps than
/// bytes.
pub proof fn lemma_char_steps_cover(s: Seq<u8>)
    ensures
        joined_steps(char_steps(s)) == s,
        char_steps(s).len() <= s.len(),
        forall|i: int| 0 <= i < char_steps(s).len() ==> char_step_ok((#[trigger] char_steps(s)[i]).0, char_steps(s)[i].1),
    decreases s.len(),
{
    if s.len() > 0 {
        lemma_char_len_range(s);
        lemma_valid_prefix_len(s, 1, min4(s.len() as int));
        let k = char_len(s);
        let rest = s.skip(k);
        lemma_char_steps_cover(rest);
        let ps = char_steps(s);
        assert(ps.drop_first() =~= char_steps(rest));
        assert(s.take(k) + rest =~= s);
        lemma_valid_prefix_least(s, 1, min4(s.len() as int));
        if valid_prefix_len(s, 1, min4(s.len() as int)) != 0 {
            assert forall|j: int| 1 <= j < k implies !valid_utf8(#[trigger] s.take(k).take(j)) by {
                assert(s.take(k).take(j) =~= s.take(j));
            }
            lemma_least_valid_is_one_char(s.take(k));
        }
        assert(char_step_ok(ps[0].0, ps[0].1));
        assert forall|i: int| 0 <= i < ps.len() implies char_step_ok((#[trigger] ps[i]).0, ps[i].1) by {
            if i > 0 {
                assert(ps[i] == char_steps(rest)[i - 1]);
            }
        }
    }
}

/// Walks a line character by character, as the side-by-side format reads it.
pub struct CharIter<'a> {
    pub current: &'a [u8],
}

impl<'a> CharIter<'a> {
    pub fn new(value: &'a [u8]) -> (r: CharIter<'a>)
        ensures
            r.current@ == value@,
    {
        CharIter { current: value }
    }

    /// The bytes of the next character and its width in columns, or `None` at
    /// the end of the line.
    pub fn next(&mut self) -> (r: Option<(&'a [u8], usize)>)
        ensures
            old(self).current@.len() == 0 ==> r is None && final(self).current@ == old(self).current@,
            old(self).current@.len() > 0 ==> (r matches Some((ch, w)) && {
                let k = char_len(old(self).current@);
                &&& ch@ == old(self).current@.take(k)
                &&& w == char_width(old(self).current@)
                &&& final(self).current@ == old(self).current@.skip(k)
                &&& char_steps(old(self).current@) == seq![(ch@, w as int)] + char_steps(final(self).current@)
            }),
    {
        let cur: &'a [u8] = self.current;
        let max: usize = if cur.len() < 4 { cur.len() } else { 4 };
        if max == 0 {
            return None;
        }
        let ghost s = cur@;
        proof {
            lemma_valid_prefix_len(s, 1, max as int);
            lemma_char_len_range(s);
        }
        let mut index: usize = 1;
        let mut found: Option<&str> = utf8_str(&cur[0..1]);
        assert(cur@.subrange(0, 1) =~= s.take(1));
        while found.is_none()
            invariant
                s == cur@,
                1 <= index <= max,
                max == min4(s.len() as int),
                max <= cur.len(),
                valid_prefix_len(s, 1, max as int) == valid_prefix_len(s, index as int, max as int),
                found is Some <==> valid_utf8(s.take(index as int)),
                found matches Some(c) ==> c@ == decode_utf8(s.take(index as int)),
            ensures
                found is Some ==> valid_prefix_len(s, 1, max as int) == index && found->0@ == decode_utf8(s.take(index as int)),
                found is None ==> valid_prefix_len(s, 1, max as int) == 0,
                1 <= index <= max,
            decreases max - index,
        {
            if index + 1 > max {
                assert(valid_prefix_len(s, index + 1, max as int) == 0);
                break;
            }
            index = index + 1;
            found = utf8_str(&cur[0..index]);
            assert(cur@.subrange(0, index as int) =~= s.take(index as int));
        }
        match found {
            Some(c) => {
                let view: &'a [u8] = &cur[0..index];
                self.current = &cur[index..cur.len()];
                assert(view@ =~= s.take(index as int));
                assert(self.current@ =~= s.skip(index as int));
                Some((view, display_width(c)))
            },
            None => {
                let view: &'a [u8] = &cur[0..1];
                self.current = &cur[1..cur.len()];
                assert(view@ =~= s.take(1));
                assert(self.current@ =~= s.skip(1));
                Some((view, 1))
            },
        }
    }
}

// ---------------------------------------------------------------------------
// Configuration
// ---------------------------------------------------------------------------

/// The layout of the two columns: the width of each half, where the second
/// column starts, the tab size, whether tabs are expanded, and the column of
/// the separator.
pub struct Config {
    pub sdiff_half_width: usize,
    pub sdiff_column_two_offset: usize,
    pub tab_size: usize,
    pub expanded: bool,
    pub separator_pos: usize,
}

/// The column where the second half starts, before it is known whether the
/// halves have room: half the width plus half of (tab size + gutter), plus one
/// when both are odd, rounded down to a multiple of the tab size.
pub open spec fn layout_offset(w: int, t: int) -> int {
    let tg = t + 3;
    let unaligned = w / 2 + tg / 2 + if w % 2 == 1 && tg % 2 == 1 { 1int } else { 0int };
    unaligned - unaligned % t
}

/// The width of each half: the room before the offset less the gutter, or
/// after it, whichever is smaller, and at least 0.
pub open spec fn layout_half_width(w: int, t: int) -> int {
    let off = layout_offset(w, t);
    let a = off - 3;
    let b = w - off;
    let m = if a < b { a } else { b };
    if m < 0 { 0 } else { m }
}

pub open spec fn layout_column_two(w: int, t: int) -> int {
    if layout_half_width(w, t) != 0 { layout_offset(w, t) } else { w }
}

/// A configuration that the side-by-side format can work with: the tab size
/// is positive and the columns leave room for the gutter.
pub open spec fn config_ok(c: Config) -> bool {
    &&& c.tab_size > 0
    &&& c.sdiff_half_width + 3 <= usize::MAX
    &&& c.separator_pos < usize::MAX
}

/// The layout that `Config::new` computes.
pub open spec fn config_spec(w: usize, t: usize, e: bool) -> Config {
    let hw = layout_half_width(w as int, t as int);
    let c2o = layout_column_two(w as int, t as int);
    Config {
        sdiff_half_width: hw as usize,
        sdiff_column_two_offset: c2o as usize,
        tab_size: t,
        expanded: e,
        separator_pos: ((hw + c2o - 1) / 2) as usize,
    }
}

impl Config {
    /// The layout of a side-by-side diff `full_width` columns wide, as diff
    /// computes it.
    pub fn new(full_width: usize, tab_size: usize, expanded: bool) -> (c: Config)
        requires
            full_width >= 1,
            tab_size >= 1,
            full_width <= isize::MAX,
            tab_size + 3 <= isize::MAX,
        ensures
            c.expanded == expanded,
            c.tab_size == tab_size,
            c.sdiff_half_width == layout_half_width(full_width as int, tab_size as int),
            c.sdiff_column_two_offset == layout_column_two(full_width as int, tab_size as int),
            c.separator_pos == (c.sdiff_half_width + c.sdiff_column_two_offset - 1) / 2,
            c == config_spec(full_width, tab_size, expanded),
            config_ok(c),
    {
        let w = full_width;
        let t = tab_size;
        let t_plus_g = t + GUTTER_WIDTH_MIN;
        let both_odd: usize = if w % 2 == 1 && t_plus_g % 2 == 1 { 1 } else { 0 };
        let unaligned_off = w / 2 + t_plus_g / 2 + both_odd;
        assert(unaligned_off % t <= unaligned_off) by (nonlinear_arith)
            requires
                t >= 1,
        ;
        let off = unaligned_off - unaligned_off % t;
        let hw: usize = if off >= GUTTER_WIDTH_MIN && w >= off {
            if off - GUTTER_WIDTH_MIN < w - off { off - GUTTER_WIDTH_MIN } else { w - off }
        } else {
            0
        };
        let c2o = if hw != 0 { off } else { w };
        assert(hw <= w);
        Config {
            expanded,
            sdiff_column_two_offset: c2o,
            tab_size,
            sdiff_half_width: hw,
            separator_pos: (hw + c2o - 1) / 2,
        }
    }
}

// ---------------------------------------------------------------------------
// Filling columns
// ---------------------------------------------------------------------------

/// Tabs from column `cur` while a whole tab stop fits before `to`, then spaces.
pub open spec fn tab_fill(cur: int, to: int, t: int) -> Seq<u8>
    decreases to - cur,
{
    if cur > to || t <= 0 {
        Seq::<u8>::empty()
    } else if cur + (t - cur % t) <= to {
        seq![9u8] + tab_fill(cur + (t - cur % t), to, t)
    } else {
        repeat(32u8, (to - cur) as nat)
    }
}

/// The blanks that bring the output from column `from` to column `to`:
/// spaces when tabs are expanded, else as many tabs as fit, then spaces.
pub open spec fn fill(from: int, to: int, c: Config) -> Seq<u8> {
    if from > to {
        Seq::<u8>::empty()
    } else if c.expanded {
        repeat(32u8, (to - from) as nat)
    } else {
        tab_fill(from, to, c.tab_size as int)
    }
}

/// Appends the blanks from column `from` to column `to`.
pub fn format_tabs_and_spaces(from: usize, to: usize, config: &Config, buf: &mut Vec<u8>) -> (r: Result<(), std::io::Error>)
    requires
        config.tab_size > 0,
    ensures
        r is Ok,
        final(buf)@ == old(buf)@ + fill(from as int, to as int, *config),
{
    let expanded = config.expanded;
    let tab_size = config.tab_size;
    let mut current = from;
    if current > to {
        assert(old(buf)@ + fill(from as int, to as int, *config) =~= old(buf)@);
        return Ok(());
    }
    if expanded {
        push_repeat(buf, 32u8, to - current);
        return Ok(());
    }
    let ghost whole = fill(from as int, to as int, *config);
    assert(buf@ + tab_fill(current as int, to as int, tab_size as int) =~= old(buf)@ + whole);
    while tab_size - current % tab_size <= to - current
        invariant
            tab_size > 0,
            current <= to,
            buf@ + tab_fill(current as int, to as int, tab_size as int) == old(buf)@ + whole,
        decreases to - current,
    {
        let next_tab = current + (tab_size - current % tab_size);
        let ghost before = buf@;
        buf.push(9u8);
        assert(buf@ + tab_fill(next_tab as int, to as int, tab_size as int) =~= before + tab_fill(
            current as int,
            to as int,
            tab_size as int,
        ));
        current = next_tab;
    }
    let ghost before = buf@;
    push_repeat(buf, 32u8, to - current);
    assert(buf@ =~= before + tab_fill(current as int, to as int, tab_size as int));
    Ok(())
}


// ---------------------------------------------------------------------------
// Half lines
// ---------------------------------------------------------------------------

/// The text of the characters of `s` that fit in `max` columns, starting at
/// column `cw`, and the column where they end. A tab moves to the next tab
/// stop (as spaces when tabs are expanded) and is dropped when the stop lies
/// past `max`; a newline ends the line; a carriage return restarts the line at
/// the second column; bell, form feed, vertical tab and zero bytes take no
/// column.
pub open spec fn half_rec(s: Seq<u8>, cw: int, max: int, c: Config) -> (Seq<u8>, int)
    decreases s.len(),
{
    if s.len() == 0 {
        (Seq::<u8>::empty(), cw)
    } else {
        let k = char_len(s);
        let w = char_width(s);
        let ch = s.take(k);
        let rest = s.skip(k);
        if k < 1 || k > s.len() || cw + w > max {
            (Seq::<u8>::empty(), cw)
        } else if ch == seq![9u8] {
            let step = c.tab_size - cw % (c.tab_size as int);
            if cw + step <= max {
                let r = half_rec(rest, cw + step, max, c);
                ((if c.expanded { repeat(32u8, step as nat) } else { seq![9u8] }) + r.0, r.1)
            } else {
                half_rec(rest, cw, max, c)
            }
        } else if ch == seq![10u8] {
            (Seq::<u8>::empty(), cw)
        } else if ch == seq![13u8] {
            let r = half_rec(rest, 0, max, c);
            (seq![13u8] + fill(0, c.sdiff_column_two_offset as int, c) + r.0, r.1)
        } else if ch == seq![0u8] || ch == seq![7u8] || ch == seq![12u8] || ch == seq![11u8] {
            let r = half_rec(rest, cw, max, c);
            (ch + r.0, r.1)
        } else {
            let r = half_rec(rest, cw + w, max, c);
            (ch + r.0, r.1)
        }
    }
}

/// The text of one half of a side-by-side line: the characters that fit in
/// `max` columns, then (for the left half) the blanks up to the gutter. An empty
/// left half is all blanks; nothing is written when `max` exceeds the half
/// width, or, on the left, the second column's offset.
pub open spec fn half_line(s: Seq<u8>, max: int, is_right: bool, wsg: bool, c: Config) -> Seq<u8> {
    let gutter: int = if wsg { 3 } else { 1 };
    if s.len() == 0 {
        if !is_right {
            fill(0, max + gutter, c)
        } else {
            Seq::<u8>::empty()
        }
    } else if max > c.sdiff_half_width {
        Seq::<u8>::empty()
    } else if max > c.sdiff_column_two_offset && !is_right {
        Seq::<u8>::empty()
    } else {
        let r = half_rec(s, 0, max, c);
        r.0 + if !is_right {
            fill(r.1, max + gutter, c)
        } else {
            Seq::<u8>::empty()
        }
    }
}

proof fn lemma_char_len(s: Seq<u8>)
    requires
        s.len() > 0,
    ensures
        1 <= char_len(s) <= s.len(),
{
    lemma_valid_prefix_len(s, 1, min4(s.len() as int));
}

/// Writes the part of a line that fits in one half of the output.
pub fn process_half_line(s: &[u8], max_width: usize, is_right: bool, white_space_gutter: bool, config: &Config, buf: &mut Vec<u8>) -> (r: Result<(), std::io::Error>)
    requires
        config.tab_size > 0,
        max_width + 3 <= usize::MAX,
    ensures
        r is Ok,
        final(buf)@ == old(buf)@ + half_line(s@, max_width as int, is_right, white_space_gutter, *config),
{
    let gutter: usize = if white_space_gutter { GUTTER_WIDTH_MIN } else { 1 };
    if s.len() == 0 {
        if !is_right {
            let _ = format_tabs_and_spaces(0, max_width + gutter, config, buf);
        } else {
            assert(buf@ =~= old(buf)@ + Seq::<u8>::empty());
        }
        return Ok(());
    }
    if max_width > config.sdiff_half_width {
        assert(buf@ =~= old(buf)@ + Seq::<u8>::empty());
        return Ok(());
    }
    if max_width > config.sdiff_column_two_offset && !is_right {
        assert(buf@ =~= old(buf)@ + Seq::<u8>::empty());
        return Ok(());
    }
    let expanded = config.expanded;
    let tab_size = config.tab_size;
    let sdiff_column_two_offset = config.sdiff_column_two_offset;
    let mut current_width: usize = 0;
    let mut iter = CharIter::new(s);
    let ghost whole = half_rec(s@, 0, max_width as int, *config);
    assert(buf@ + half_rec(iter.current@, current_width as int, max_width as int, *config).0 =~= old(buf)@ + whole.0);
    loop
        invariant_except_break
            buf@ + half_rec(iter.current@, current_width as int, max_width as int, *config).0 == old(buf)@ + whole.0,
            half_rec(iter.current@, current_width as int, max_width as int, *config).1 == whole.1,
        invariant
            config.tab_size > 0,
            tab_size == config.tab_size,
            expanded == config.expanded,
            sdiff_column_two_offset == config.sdiff_column_two_offset,
            current_width <= max_width,
            whole == half_rec(s@, 0, max_width as int, *config),
        ensures
            buf@ == old(buf)@ + whole.0,
            current_width == whole.1,
        decreases iter.current@.len(),
    {
        let ghost rest_before = iter.current@;
        let ghost before = buf@;
        let ghost cw0 = current_width as int;
        let next = iter.next();
        match next {
            None => {
                assert(buf@ =~= before + half_rec(rest_before, cw0, max_width as int, *config).0);
                break;
            },
            Some((ch, c_width)) => {
                proof {
                    lemma_char_len(rest_before);
                }
                if c_width > max_width - current_width {
                    assert(buf@ =~= before + half_rec(rest_before, cw0, max_width as int, *config).0);
                    break;
                }
                if ch.len() == 1 && ch[0] == 9u8 {
                    assert(ch@ =~= seq![9u8]);
                    let step = tab_size - current_width % tab_size;
                    if expanded && step <= max_width - current_width {
                        push_repeat(buf, 32u8, step);
                        current_width = current_width + step;
                    } else if step <= max_width - current_width {
                        buf.push(9u8);
                        current_width = current_width + step;
                    }
                } else if ch.len() == 1 && ch[0] == 10u8 {
                    assert(ch@ =~= seq![10u8]);
                    assert(buf@ =~= before + half_rec(rest_before, cw0, max_width as int, *config).0);
                    break;
                } else if ch.len() == 1 && ch[0] == 13u8 {
                    assert(ch@ =~= seq![13u8]);
                    buf.push(13u8);
                    let _ = format_tabs_and_spaces(0, sdiff_column_two_offset, config, buf);
                    current_width = 0;
                } else if ch.len() == 1 && (ch[0] == 0u8 || ch[0] == 7u8 || ch[0] == 12u8 || ch[0] == 11u8) {
                    assert(ch@ == seq![0u8] || ch@ == seq![7u8] || ch@ == seq![12u8] || ch@ == seq![11u8]);
                    push_all(buf, ch);
                } else {
                    assert(ch@ != seq![9u8] && ch@ != seq![10u8] && ch@ != seq![13u8] && ch@ != seq![0u8]
                        && ch@ != seq![7u8] && ch@ != seq![12u8] && ch@ != seq![11u8]);
                    push_all(buf, ch);
                    current_width = current_width + c_width;
                }
                assert(buf@ + half_rec(iter.current@, current_width as int, max_width as int, *config).0
                    =~= before + half_rec(rest_before, cw0, max_width as int, *config).0);
            },
        }
    }
    if !is_right {
        let _ = format_tabs_and_spaces(current_width, max_width + gutter, config, buf);
    }
    assert(buf@ =~= old(buf)@ + half_line(s@, max_width as int, is_right, white_space_gutter, *config));
    Ok(())
}


// ---------------------------------------------------------------------------
// Lines and the whole output
// ---------------------------------------------------------------------------

/// One output line: the left half, the marker with the blanks up to the second
/// column (unless the marker is a space, or the right line is empty), the right
/// half, and a newline; a bare newline when both lines are empty.
pub open spec fn side_line(l: Seq<u8>, r: Seq<u8>, symbol: u8, c: Config) -> Seq<u8> {
    if l.len() == 0 && r.len() == 0 {
        seq![10u8]
    } else {
        let wsg = symbol == 32u8;
        let hw = c.sdiff_half_width as int;
        half_line(l, hw, false, wsg, c) + (if symbol != 32u8 {
            seq![symbol] + if r.len() > 0 {
                fill(c.separator_pos + 1, c.sdiff_column_two_offset as int, c)
            } else {
                Seq::<u8>::empty()
            }
        } else {
            Seq::<u8>::empty()
        }) + half_line(r, hw, true, wsg, c) + seq![10u8]
    }
}

/// Writes one line of the side-by-side output.
pub fn push_output(left_ln: &[u8], right_ln: &[u8], symbol: u8, output: &mut Vec<u8>, config: &Config) -> (r: Result<(), std::io::Error>)
    requires
        config_ok(*config),
    ensures
        r is Ok,
        final(output)@ == old(output)@ + side_line(left_ln@, right_ln@, symbol, *config),
{
    if left_ln.len() == 0 && right_ln.len() == 0 {
        output.push(10u8);
        assert(output@ =~= old(output)@ + seq![10u8]);
        return Ok(());
    }
    let white_space_gutter = symbol == 32u8;
    let half_width = config.sdiff_half_width;
    let column_two_offset = config.sdiff_column_two_offset;
    let separator_pos = config.separator_pos;
    let ghost o0 = output@;
    let _ = process_half_line(left_ln, half_width, false, white_space_gutter, config, output);
    let ghost o1 = output@;
    if symbol != 32u8 {
        output.push(symbol);
        if right_ln.len() != 0 {
            let _ = format_tabs_and_spaces(separator_pos + 1, column_two_offset, config, output);
        }
    }
    let ghost o2 = output@;
    let _ = process_half_line(right_ln, half_width, true, white_space_gutter, config, output);
    output.push(10u8);
    assert(output@ =~= o0 + side_line(left_ln@, right_ln@, symbol, *config));
    Ok(())
}

/// The lines of a buffer, each with its newline: the pieces that
/// `split_inclusive` at newlines gives.
pub open spec fn inclusive_lines(s: Seq<u8>) -> Seq<Seq<u8>>
    decreases s.len(),
{
    if s.len() == 0 {
        Seq::empty()
    } else {
        let p = inclusive_lines(s.drop_last());
        if p.len() > 0 && p.last().last() != 10u8 {
            p.update(p.len() - 1, p.last().push(s.last()))
        } else {
            p.push(seq![s.last()])
        }
    }
}

proof fn lemma_inclusive_lines_len(s: Seq<u8>)
    ensures
        inclusive_lines(s).len() <= s.len(),
        forall|i: int| 0 <= i < inclusive_lines(s).len() ==> (#[trigger] inclusive_lines(s)[i]).len() > 0,
    decreases s.len(),
{
    if s.len() > 0 {
        lemma_inclusive_lines_len(s.drop_last());
    }
}

proof fn lemma_inclusive_count(s: Seq<u8>)
    ensures
        inclusive_lines(s).len() == line_count(s),
        s.len() > 0 ==> inclusive_lines(s).len() > 0 && inclusive_lines(s).last().len() > 0
            && inclusive_lines(s).last().last() == s.last(),
    decreases s.len(),
{
    if s.len() > 0 {
        let t = s.drop_last();
        lemma_inclusive_count(t);
        lemma_inclusive_lines_len(t);
        assert(count_nl(s) == count_nl(t) + if s.last() == 10u8 { 1nat } else { 0nat });
    }
}

/// Splitting after each newline gives as many lines as the diff formats see.
proof fn lemma_inclusive_text_len(s: Seq<u8>)
    ensures
        inclusive_lines(s).len() == text_lines(s).len(),
{
    lemma_inclusive_count(s);
    lemma_text_line_count(s);
}

/// Splits a buffer after each newline.
pub fn split_inclusive_lines(s: &[u8]) -> (r: Vec<Vec<u8>>)
    ensures
        lines_of(r@) == inclusive_lines(s@),
{
    let mut lines: Vec<Vec<u8>> = Vec::new();
    let mut i: usize = 0;
    assert(s@.take(0) =~= Seq::<u8>::empty());
    while i < s.len()
        invariant
            i <= s.len(),
            lines_of(lines@) == inclusive_lines(s@.take(i as int)),
        decreases s.len() - i,
    {
        proof {
            lemma_inclusive_lines_len(s@.take(i as int));
        }
        let ghost p = lines_of(lines@);
        let b = s[i];
        assert(s@.take(i + 1).drop_last() =~= s@.take(i as int));
        let n = lines.len();
        if n > 0 {
            assert(lines_of(lines@)[n as int - 1].len() > 0);
        }
        if n > 0 && lines[n - 1][lines[n - 1].len() - 1] != 10u8 {
            let mut last = lines.pop().unwrap();
            let ghost lv = last@;
            last.push(b);
            lines.push(last);
            assert(lines_of(lines@) =~= p.update(p.len() - 1, lv.push(b)));
        } else {
            let mut v: Vec<u8> = Vec::new();
            v.push(b);
            lines.push(v);
            assert(lines_of(lines@) =~= p.push(seq![b]));
        }
        i = i + 1;
    }
    assert(s@.take(s.len() as int) =~= s@);
    lines
}

/// The side-by-side text of an edit script between the lines `l` and `r`:
/// a line with `<` for a line only on the left, with `>` for one only on the
/// right, and both lines for a common one.
pub open spec fn side_text(sc: Seq<DiffOp>, l: Seq<Seq<u8>>, r: Seq<Seq<u8>>, c: Config) -> Seq<u8>
    decreases sc.len(),
{
    if sc.len() == 0 {
        Seq::<u8>::empty()
    } else {
        let prev = sc.drop_last();
        let li = left_count(prev) as int;
        let ri = right_count(prev) as int;
        side_text(prev, l, r, c) + match sc.last() {
            DiffOp::Left => side_line(l[li], Seq::<u8>::empty(), 60u8, c),
            DiffOp::Right => side_line(Seq::<u8>::empty(), r[ri], 62u8, c),
            DiffOp::Both => side_line(l[li], r[ri], 32u8, c),
        }
    }
}

/// The configuration that the parameters ask for.
pub open spec fn params_config_ok(p: Params) -> bool {
    p.width >= 1 && p.tabsize >= 1 && p.width <= isize::MAX && p.tabsize + 3 <= isize::MAX
}

/// The side-by-side diff of two buffers with the layout of `Config::new`.
pub open spec fn side_diff_output(from: Seq<u8>, to: Seq<u8>, c: Config) -> Seq<u8> {
    let l = inclusive_lines(from);
    let r = inclusive_lines(to);
    side_text(lcs_script(l, r), l, r, c)
}

/// The side-by-side diff of `from_file` and `to_file`, written to `output`;
/// the result is always empty.
pub fn diff(from_file: &[u8], to_file: &[u8], output: &mut Vec<u8>, params: &Params) -> (r: Vec<u8>)
    requires
        diff_size_ok(text_lines(from_file@).len(), text_lines(to_file@).len()),
        params_config_ok(*params),
    ensures
        r@.len() == 0,
        final(output)@ == old(output)@ + side_diff_output(
            from_file@,
            to_file@,
            config_spec(params.width, params.tabsize, params.expand_tabs),
        ),
{
    let left_lines = split_inclusive_lines(from_file);
    let right_lines = split_inclusive_lines(to_file);
    let config = Config::new(params.width, params.tabsize, params.expand_tabs);
    let ghost l = lines_of(left_lines@);
    let ghost rl = lines_of(right_lines@);
    proof {
        lemma_inclusive_lines_len(from_file@);
        lemma_inclusive_lines_len(to_file@);
        lemma_inclusive_text_len(from_file@);
        lemma_inclusive_text_len(to_file@);
        
    }
    let script = diff_lines(&left_lines, &right_lines);
    let ghost sc = script@;
    let mut li: usize = 0;
    let mut ri: usize = 0;
    let mut i: usize = 0;
    let e: [u8; 0] = [];
    assert(e@ =~= Seq::<u8>::empty());
    assert(sc.take(0) =~= Seq::<DiffOp>::empty());
    assert(output@ =~= old(output)@ + side_text(sc.take(0), l, rl, config));
    while i < script.len()
        invariant
            sc == script@,
            l == lines_of(left_lines@),
            rl == lines_of(right_lines@),
            fits(sc, l, rl),
            config_ok(config),
            e@ == Seq::<u8>::empty(),
            i <= sc.len(),
            li == left_count(sc.take(i as int)),
            ri == right_count(sc.take(i as int)),
            left_lines.len() == l.len(),
            right_lines.len() == rl.len(),
            output@ == old(output)@ + side_text(sc.take(i as int), l, rl, config),
        decreases sc.len() - i,
    {
        proof {
            lemma_fits_step(sc, l, rl, i as int);
            lemma_count_step(sc, i as int);
            assert(sc.take(i + 1).drop_last() =~= sc.take(i as int));
        }
        let ghost before = output@;
        match script[i] {
            DiffOp::Left => {
                assert(li < l.len());
                let _ = push_output(left_lines[li].as_slice(), &e, 60u8, output, &config);
                li = li + 1;
            },
            DiffOp::Right => {
                assert(ri < rl.len());
                let _ = push_output(&e, right_lines[ri].as_slice(), 62u8, output, &config);
                ri = ri + 1;
            },
            DiffOp::Both => {
                assert(li < l.len() && ri < rl.len());
                let _ = push_output(left_lines[li].as_slice(), right_lines[ri].as_slice(), 32u8, output, &config);
                li = li + 1;
                ri = ri + 1;
            },
        }
        i = i + 1;
        assert(output@ =~= old(output)@ + side_text(sc.take(i as int), l, rl, config));
    }
    proof {
        lemma_take_all(sc);
    }
    Vec::new()
}

} // verus!
