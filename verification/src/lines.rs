//! Splitting byte buffers into lines.

use vstd::prelude::*;

verus! {

/// The contents of a vector of lines.
pub open spec fn lines_of(v: Seq<Vec<u8>>) -> Seq<Seq<u8>> {
    Seq::new(v.len(), |i: int| v[i]@)
}

/// The newline byte.
pub open spec fn nl() -> u8 {
    10u8
}

/// The pieces of `s` between the bytes equal to `sep`, like
/// `s.split(|c| *c == sep)`: there is always one more piece than separators.
pub open spec fn split_on(s: Seq<u8>, sep: u8) -> Seq<Seq<u8>>
    decreases s.len(),
{
    if s.len() == 0 {
        seq![Seq::<u8>::empty()]
    } else {
        let p = split_on(s.drop_last(), sep);
        if s.last() == sep {
            p.push(Seq::<u8>::empty())
        } else {
            p.update(p.len() - 1, p.last().push(s.last()))
        }
    }
}

/// The number of bytes of `s` equal to `b`.
pub open spec fn count_byte(s: Seq<u8>, b: u8) -> nat
    decreases s.len(),
{
    if s.len() == 0 {
        0
    } else {
        count_byte(s.drop_last(), b) + if s.last() == b { 1nat } else { 0nat }
    }
}

/// The pieces of `s` between newline bytes.
pub open spec fn split_lines(s: Seq<u8>) -> Seq<Seq<u8>> {
    split_on(s, nl())
}

/// The number of newline bytes in `s`.
pub open spec fn count_nl(s: Seq<u8>) -> nat {
    count_byte(s, nl())
}

pub proof fn lemma_split_on_len(s: Seq<u8>, sep: u8)
    ensures
        split_on(s, sep).len() == count_byte(s, sep) + 1,
    decreases s.len(),
{
    if s.len() > 0 {
        lemma_split_on_len(s.drop_last(), sep);
    }
}

/// The lines of a buffer as the diff formats see them: the pieces between
/// newlines, without the empty piece that follows a final newline.
pub open spec fn text_lines(s: Seq<u8>) -> Seq<Seq<u8>> {
    let p = split_lines(s);
    if p.last() == Seq::<u8>::empty() {
        p.drop_last()
    } else {
        p
    }
}

pub proof fn lemma_split_lines_len(s: Seq<u8>)
    ensures
        split_lines(s).len() == count_nl(s) + 1,
{
    lemma_split_on_len(s, nl());
}

pub proof fn lemma_count_byte_le(s: Seq<u8>, b: u8)
    ensures
        count_byte(s, b) <= s.len(),
    decreases s.len(),
{
    if s.len() > 0 {
        lemma_count_byte_le(s.drop_last(), b);
    }
}

pub proof fn lemma_count_nl_le(s: Seq<u8>)
    ensures
        count_nl(s) <= s.len(),
{
    lemma_count_byte_le(s, nl());
}

/// The text lines and the number of newlines: the lines number at most one more
/// than the newlines, and at least as many.
pub proof fn lemma_text_lines_len(s: Seq<u8>)
    ensures
        count_nl(s) <= text_lines(s).len() <= count_nl(s) + 1,
        text_lines(s).len() <= s.len(),
        text_lines(s).len() == count_nl(s) <==> split_lines(s).last() == Seq::<u8>::empty(),
{
    lemma_split_lines_len(s);
    lemma_count_nl_le(s);
    if s.len() == 0 {
    } else if split_lines(s).last() != Seq::<u8>::empty() {
        lemma_last_piece_nonempty_bound(s);
    }
}

pub proof fn lemma_last_piece_nonempty_bound(s: Seq<u8>)
    requires
        split_lines(s).last() != Seq::<u8>::empty(),
    ensures
        count_nl(s) + 1 <= s.len(),
    decreases s.len(),
{
    lemma_split_lines_len(s);
    if s.len() == 0 {
    } else {
        lemma_split_lines_len(s.drop_last());
        if s.last() == nl() {
        } else {
            lemma_count_nl_le(s.drop_last());
        }
    }
}

/// Splits `s` at every byte equal to `sep`, as `s.split(|c| *c == sep)` does.
pub fn split_at_byte(s: &[u8], sep: u8) -> (r: Vec<Vec<u8>>)
    ensures
        lines_of(r@) == split_on(s@, sep),
{
    let mut done: Vec<Vec<u8>> = Vec::new();
    let mut cur: Vec<u8> = Vec::new();
    let mut i: usize = 0;
    assert(s@.take(0) =~= Seq::<u8>::empty());
    while i < s.len()
        invariant
            i <= s.len(),
            lines_of(done@).push(cur@) == split_on(s@.take(i as int), sep),
        decreases s.len() - i,
    {
        let c = s[i];
        let ghost before = s@.take(i as int);
        assert(s@.take(i as int + 1).drop_last() =~= before);
        if c == sep {
            let ghost d = lines_of(done@);
            let ghost old_cur = cur@;
            done.push(cur);
            cur = Vec::new();
            assert(lines_of(done@) =~= d.push(old_cur));
        } else {
            let ghost d = lines_of(done@);
            cur.push(c);
            assert(lines_of(done@).push(cur@) =~= split_on(s@.take(i as int + 1), sep));
        }
        i = i + 1;
    }
    assert(s@.take(s.len() as int) =~= s@);
    let ghost d = lines_of(done@);
    let ghost c = cur@;
    done.push(cur);
    assert(lines_of(done@) =~= d.push(c));
    done
}

/// The lines of `s` as the diff formats read them, together with the number of
/// newline bytes in `s` (the number of lines that end in a newline).
pub fn lines_and_newline_count(s: &[u8]) -> (r: (Vec<Vec<u8>>, usize))
    ensures
        lines_of(r.0@) == text_lines(s@),
        r.1 == count_nl(s@),
{
    let mut pieces = split_at_byte(s, 10u8);
    proof {
        lemma_split_lines_len(s@);
    }
    let count = pieces.len() - 1;
    let last_empty = pieces[pieces.len() - 1].len() == 0;
    if last_empty {
        let ghost d = lines_of(pieces@);
        proof {
            assert(d.last() =~= Seq::<u8>::empty());
        }
        pieces.pop();
        assert(lines_of(pieces@) =~= d.drop_last());
    } else {
        assert(lines_of(pieces@).last() != Seq::<u8>::empty());
    }
    (pieces, count)
}

/// The number of lines of a buffer: its newlines, and one more when it ends
/// in a line without one.
pub open spec fn line_count(s: Seq<u8>) -> nat {
    count_nl(s) + if s.len() > 0 && s.last() != 10u8 { 1nat } else { 0nat }
}

/// The lines that the diff formats see number `line_count`.
pub proof fn lemma_text_line_count(s: Seq<u8>)
    ensures
        text_lines(s).len() == line_count(s),
{
    lemma_split_lines_len(s);
    let p = split_lines(s);
    if s.len() == 0 {
        assert(p =~= seq![Seq::<u8>::empty()]);
    } else if s.last() == 10u8 {
        assert(p.last() == Seq::<u8>::empty());
    } else {
        lemma_split_on_len(s.drop_last(), nl());
        assert(p.last().len() > 0);
    }
}

/// The number of lines of `s` as the diff formats read them (the limits of
/// the comparisons are stated over it).
pub fn text_line_count(s: &[u8]) -> (r: usize)
    ensures
        r == text_lines(s@).len(),
{
    let mut c: usize = 0;
    let mut i: usize = 0;
    assert(s@.take(0) =~= Seq::<u8>::empty());
    while i < s.len()
        invariant
            i <= s.len(),
            c == count_nl(s@.take(i as int)),
            c <= i,
        decreases s.len() - i,
    {
        assert(s@.take(i + 1).drop_last() =~= s@.take(i as int));
        if s[i] == 10u8 {
            c = c + 1;
        }
        i = i + 1;
    }
    assert(s@.take(s.len() as int) =~= s@);
    proof {
        lemma_text_line_count(s@);
    }
    if s.len() > 0 && s[s.len() - 1] != 10u8 {
        proof {
            assert(s@.drop_last() =~= s@.take(s.len() - 1));
            lemma_count_byte_le(s@.drop_last(), nl());
        }
        c + 1
    } else {
        c
    }
}

} // verus!
