//! Writing bytes and decimal numbers into output buffers.

use vstd::prelude::*;

verus! {

/// The decimal digits of `n`, most significant first, without leading zeros.
#[verifier::opaque]
pub open spec fn decimal(n: nat) -> Seq<u8>
    decreases n,
{
    if n < 10 {
        seq![(n + 48) as u8]
    } else {
        decimal(n / 10).push(((n % 10) + 48) as u8)
    }
}

/// A run of `n` copies of byte `b`.
pub open spec fn repeat(b: u8, n: nat) -> Seq<u8> {
    Seq::new(n, |i: int| b)
}

/// Appends `s` to `out`.
pub fn push_all(out: &mut Vec<u8>, s: &[u8])
    ensures
        final(out)@ == old(out)@ + s@,
{
    let mut i: usize = 0;
    while i < s.len()
        invariant
            i <= s.len(),
            out@ == old(out)@ + s@.take(i as int),
        decreases s.len() - i,
    {
        out.push(s[i]);
        i = i + 1;
        assert(out@ =~= old(out)@ + s@.take(i as int));
    }
    assert(s@.take(s.len() as int) =~= s@);
}

/// Appends `n` copies of byte `b` to `out`.
pub fn push_repeat(out: &mut Vec<u8>, b: u8, n: usize)
    ensures
        final(out)@ == old(out)@ + repeat(b, n as nat),
{
    let mut i: usize = 0;
    while i < n
        invariant
            i <= n,
            out@ == old(out)@ + repeat(b, i as nat),
        decreases n - i,
    {
        out.push(b);
        i = i + 1;
        assert(out@ =~= old(out)@ + repeat(b, i as nat));
    }
}

/// The decimal digits of `n`, in a fresh vector.
pub fn decimal_digits(n: usize) -> (r: Vec<u8>)
    ensures
        r@ == decimal(n as nat),
    decreases n,
{
    if n < 10 {
        reveal(decimal);
        let mut v = Vec::new();
        v.push((n as u8) + 48);
        assert(v@ =~= decimal(n as nat));
        v
    } else {
        let mut v = decimal_digits(n / 10);
        v.push(((n % 10) as u8) + 48);
        reveal(decimal);
        v
    }
}

/// Appends the decimal digits of `n` to `out`.
pub fn push_decimal(out: &mut Vec<u8>, n: usize)
    ensures
        final(out)@ == old(out)@ + decimal(n as nat),
{
    let d = decimal_digits(n);
    push_all(out, d.as_slice());
}


} // verus!

verus! {

/// `\ No newline at end of file` and a newline.
#[verifier::opaque]
pub open spec fn no_newline_note() -> Seq<u8> {
    seq![92u8, 32, 78, 111, 32, 110, 101, 119, 108, 105, 110, 101, 32, 97, 116, 32, 101, 110, 100, 32, 111, 102, 32, 102, 105, 108, 101, 10]
}

/// Appends `\ No newline at end of file` and a newline.
pub fn push_no_newline_note(out: &mut Vec<u8>)
    ensures
        final(out)@ == old(out)@ + no_newline_note(),
{
    let a: [u8; 28] = [92u8, 32, 78, 111, 32, 110, 101, 119, 108, 105, 110, 101, 32, 97, 116, 32, 101, 110, 100, 32, 111, 102, 32, 102, 105, 108, 101, 10];
    push_all(out, &a);
    reveal(no_newline_note);
    assert(a@ =~= no_newline_note());
}

/// A copy of `s`.
pub fn to_owned_bytes(s: &[u8]) -> (r: Vec<u8>)
    ensures
        r@ == s@,
{
    let mut r = Vec::new();
    push_all(&mut r, s);
    assert(r@ =~= s@);
    r
}

/// Two numbers separated by a comma.
pub open spec fn pair_text(x: int, y: int) -> Seq<u8> {
    decimal(x as nat) + seq![44u8] + decimal(y as nat)
}

/// Appends two numbers separated by a comma.
pub fn push_pair(out: &mut Vec<u8>, x: usize, y: usize)
    ensures
        final(out)@ == old(out)@ + pair_text(x as int, y as int),
{
    push_decimal(out, x);
    out.push(44u8);
    push_decimal(out, y);
    assert(out@ =~= old(out)@ + pair_text(x as int, y as int));
}

/// A range of `count` numbers starting at `start`: one number when the range
/// has one element, else its first and last element.
pub open spec fn range_text(start: int, count: int) -> Seq<u8> {
    if count == 1 {
        decimal(start as nat)
    } else {
        pair_text(start, count + start - 1)
    }
}

/// Appends a range of `count` numbers starting at `start`: one number when
/// the range has one element, else its first and last element.
pub fn push_range(out: &mut Vec<u8>, start: usize, count: usize)
    requires
        count >= 1,
        start + count <= usize::MAX,
    ensures
        final(out)@ == old(out)@ + range_text(start as int, count as int),
{
    if count == 1 {
        push_decimal(out, start);
    } else {
        push_pair(out, start, count + start - 1);
    }
}

/// Whether `b` is one of the digits `0` to `9`.
pub open spec fn is_digit_byte(b: u8) -> bool {
    48 <= b <= 57
}

/// The number of digits that `t` starts with.
pub open spec fn digit_run(t: Seq<u8>) -> int
    decreases t.len(),
{
    if t.len() == 0 || !is_digit_byte(t[0]) {
        0
    } else {
        1 + digit_run(t.drop_first())
    }
}

/// The value of a string of decimal digits, most significant first.
pub open spec fn digits_value(s: Seq<u8>) -> int
    decreases s.len(),
{
    if s.len() == 0 {
        0
    } else {
        digits_value(s.drop_last()) * 10 + (s.last() - 48)
    }
}

/// The range of lines that a reader finds written at the start of `t`, as
/// `N` or `N,M`: its first number, its second (the first again when there
/// is one number), and the number of bytes it takes.
pub open spec fn read_range(t: Seq<u8>) -> (int, int, int) {
    let k = digit_run(t);
    let a = digits_value(t.take(k));
    if k < t.len() && t[k] == 44 {
        let rest = t.skip(k + 1);
        let j = digit_run(rest);
        (a, digits_value(rest.take(j)), k + 1 + j)
    } else {
        (a, a, k)
    }
}

/// The digits of `n` are digits, at least one, and read back as `n`.
pub proof fn lemma_decimal_reads(n: nat)
    ensures
        decimal(n).len() >= 1,
        forall|i: int| 0 <= i < decimal(n).len() ==> is_digit_byte(#[trigger] decimal(n)[i]),
        digits_value(decimal(n)) == n,
    decreases n,
{
    reveal(decimal);
    if n < 10 {
        let d = decimal(n);
        assert(d.drop_last() =~= Seq::<u8>::empty());
        assert(digits_value(d.drop_last()) == 0);
        assert(d.last() == (n + 48) as u8);
    } else {
        lemma_decimal_reads(n / 10);
        let d = decimal(n);
        assert(d == decimal(n / 10).push(((n % 10) + 48) as u8));
        assert(d.drop_last() =~= decimal(n / 10));
        assert(d.last() == ((n % 10) + 48) as u8);
        assert(n == (n / 10) * 10 + n % 10);
        assert forall|i: int| 0 <= i < d.len() implies is_digit_byte(#[trigger] d[i]) by {
            if i < d.len() - 1 {
                assert(d[i] == decimal(n / 10)[i]);
            }
        }
    }
}

/// A run of digits followed by no digit is where the digits end.
pub proof fn lemma_digit_run(p: Seq<u8>, rest: Seq<u8>)
    requires
        forall|i: int| 0 <= i < p.len() ==> is_digit_byte(#[trigger] p[i]),
        rest.len() == 0 || !is_digit_byte(rest[0]),
    ensures
        digit_run(p + rest) == p.len(),
    decreases p.len(),
{
    if p.len() == 0 {
        assert(p + rest =~= rest);
    } else {
        assert((p + rest).drop_first() =~= p.drop_first() + rest);
        assert((p + rest)[0] == p[0]);
        lemma_digit_run(p.drop_first(), rest);
    }
}

/// A number followed by neither a digit nor a comma reads as the range of
/// that one number.
pub proof fn lemma_read_number(n: nat, rest: Seq<u8>)
    requires
        rest.len() == 0 || (!is_digit_byte(rest[0]) && rest[0] != 44),
    ensures
        read_range(decimal(n) + rest) == (n as int, n as int, decimal(n).len() as int),
{
    lemma_decimal_reads(n);
    let t = decimal(n) + rest;
    lemma_digit_run(decimal(n), rest);
    assert(t.take(decimal(n).len() as int) =~= decimal(n));
    if rest.len() > 0 {
        assert(t[decimal(n).len() as int] == rest[0]);
    }
}

/// Two numbers joined by a comma, followed by no digit, read as the range
/// from the first to the second.
pub proof fn lemma_read_pair(x: nat, y: nat, rest: Seq<u8>)
    requires
        rest.len() == 0 || !is_digit_byte(rest[0]),
    ensures
        read_range(decimal(x) + seq![44u8] + decimal(y) + rest)
            == (x as int, y as int, (decimal(x).len() + 1 + decimal(y).len()) as int),
{
    lemma_decimal_reads(x);
    lemma_decimal_reads(y);
    let t = decimal(x) + seq![44u8] + decimal(y) + rest;
    let after = seq![44u8] + decimal(y) + rest;
    assert(t =~= decimal(x) + after);
    lemma_digit_run(decimal(x), after);
    let k = decimal(x).len() as int;
    assert(t.take(k) =~= decimal(x));
    assert(t[k] == 44u8);
    assert(t.skip(k + 1) =~= decimal(y) + rest);
    lemma_digit_run(decimal(y), rest);
    assert((decimal(y) + rest).take(decimal(y).len() as int) =~= decimal(y));
}

/// A range as `range_text` writes it, followed by neither a digit nor a
/// comma, reads as the range from `start` to its last number.
pub proof fn lemma_read_range_text(start: int, count: int, rest: Seq<u8>)
    requires
        0 <= start,
        0 <= count + start - 1,
        rest.len() == 0 || (!is_digit_byte(rest[0]) && rest[0] != 44),
    ensures
        read_range(range_text(start, count) + rest) == (start, if count == 1 { start } else { count + start - 1 },
            range_text(start, count).len() as int),
{
    if count == 1 {
        lemma_read_number(start as nat, rest);
    } else {
        lemma_read_pair(start as nat, (count + start - 1) as nat, rest);
    }
}

} // verus!
