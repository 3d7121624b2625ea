//! The rewriting of arguments that the option reader of the `diff` front end
//! cannot take as they are: GNU allows `-c42`, `-42c` (and `-4c2`), which
//! becomes `-c=42`; the same for `-u`.

use vstd::prelude::*;
use vstd::utf8::encode_utf8;
use crate::lines::lines_of;
use crate::text::to_owned_bytes;
use crate::unicode::{lossy_text, lossy_string, lossy_utf8, utf8_lossy};
use crate::arg_parser::char_text;

verus! {

/// Walks the characters of an argument from position `k`: digits are
/// collected, `c` or `u` is taken as the option (a second one rejects the
/// argument), other lower-case letters are passed over, anything else rejects
/// the argument. The result is the option, the digits, and whether the
/// argument is rewritten.
pub open spec fn prep_scan(t: Seq<char>, k: int, opt: char, num: Seq<char>, ok: bool) -> (char, Seq<char>, bool)
    decreases t.len() - k,
{
    if k < 0 || k >= t.len() {
        (opt, num, ok)
    } else {
        let c = t[k];
        if '0' <= c <= '9' {
            prep_scan(t, k + 1, opt, num.push(c), ok)
        } else if 'a' <= c <= 'z' {
            if c == 'c' || c == 'u' {
                if opt == '-' {
                    prep_scan(t, k + 1, c, num, true)
                } else {
                    (opt, num, false)
                }
            } else {
                prep_scan(t, k + 1, opt, num, ok)
            }
        } else {
            (opt, num, false)
        }
    }
}

/// An argument as the option reader gets it: an argument of more than two
/// bytes that begins with a dash and holds one `c` or `u` among digits (and
/// other lower-case letters) becomes `-c=DIGITS` or `-u=DIGITS`; any other
/// stays as it is.
pub open spec fn prepared_arg(a: Seq<u8>) -> Seq<u8> {
    let b = lossy_utf8(a);
    if a.len() > 2 && b.len() > 0 && b[0] == 45 {
        let (opt, num, ok) = prep_scan(lossy_text(a), 1, '-', Seq::empty(), false);
        if ok {
            encode_utf8(seq!['-', opt, '='] + num)
        } else {
            a
        }
    } else {
        a
    }
}

fn prepare_arg(a: &[u8]) -> (r: Vec<u8>)
    ensures
        r@ == prepared_arg(a@),
{
    if a.len() <= 2 {
        return to_owned_bytes(a);
    }
    let b = utf8_lossy(a);
    if !(b.len() > 0 && b[0] == 45u8) {
        return to_owned_bytes(a);
    }
    let text = lossy_string(a);
    let t = text.as_str();
    let n = t.unicode_len();
    let mut opt = '-';
    let mut num = String::new();
    let mut ok = false;
    let mut k: usize = 1;
    let ghost whole = prep_scan(t@, 1, '-', Seq::empty(), false);
    assert(num@ =~= Seq::<char>::empty());
    while k < n
        invariant
            n == t@.len(),
            1 <= k,
            prep_scan(t@, k as int, opt, num@, ok) == whole,
        ensures
            whole == (opt, num@, ok),
        decreases n - k,
    {
        let c = t.get_char(k);
        if '0' <= c && c <= '9' {
            let ghost before = num@;
            num = num.concat(char_text(c).as_str());
            assert(num@ =~= before.push(c));
        } else if 'a' <= c && c <= 'z' {
            if c == 'c' || c == 'u' {
                if opt == '-' {
                    opt = c;
                    ok = true;
                } else {
                    ok = false;
                    break;
                }
            }
        } else {
            ok = false;
            break;
        }
        k += 1;
    }
    assert(whole == (opt, num@, ok));
    if ok {
        let s = String::from_str("-").concat(char_text(opt).as_str()).concat("=").concat(num.as_str());
        proof {
            reveal_strlit("-");
            reveal_strlit("=");
        }
        assert(s@ =~= seq!['-', opt, '='] + num@);
        to_owned_bytes(s.as_str().as_bytes())
    } else {
        to_owned_bytes(a)
    }
}

/// The arguments as the option reader of the `diff` front end gets them, each
/// rewritten as `prepared_arg` says.
pub fn clap_preparation(args: &Vec<Vec<u8>>) -> (r: Vec<Vec<u8>>)
    ensures
        lines_of(r@) == Seq::new(args@.len(), |k: int| prepared_arg(args@[k]@)),
{
    let mut r: Vec<Vec<u8>> = Vec::new();
    let mut k: usize = 0;
    while k < args.len()
        invariant
            k <= args.len(),
            lines_of(r@) == Seq::new(k as nat, |m: int| prepared_arg(args@[m]@)),
        decreases args.len() - k,
    {
        let ghost before = r@;
        let x = prepare_arg(args[k].as_slice());
        let ghost xv = x@;
        r.push(x);
        assert(lines_of(r@) =~= lines_of(before).push(xv));
        assert(lines_of(r@) =~= Seq::new((k + 1) as nat, |m: int| prepared_arg(args@[m]@)));
        k += 1;
    }
    r
}

} // verus!
