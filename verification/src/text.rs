//! Character-level text helpers shared by the TAP serializer: decimal
//! rendering of numbers and the carriage-return discipline applied to
//! diagnostic lines (on each line only the text after the last `'\r'`
//! survives, simulating a terminal redraw).

use vstd::prelude::*;
use vstd::string::StrSliceExecFns;
use vstd::string::StringExecFns;

verus! {

/// The character for one decimal digit.
pub open spec fn digit_char(d: int) -> char {
    if d == 0 {
        '0'
    } else if d == 1 {
        '1'
    } else if d == 2 {
        '2'
    } else if d == 3 {
        '3'
    } else if d == 4 {
        '4'
    } else if d == 5 {
        '5'
    } else if d == 6 {
        '6'
    } else if d == 7 {
        '7'
    } else if d == 8 {
        '8'
    } else {
        '9'
    }
}

/// Decimal rendering of a non-negative number, most significant digit first.
pub open spec fn dec_digits(n: int) -> Seq<char>
    decreases n,
{
    if n < 10 {
        seq![digit_char(n)]
    } else {
        dec_digits(n / 10) + seq![digit_char(n % 10)]
    }
}

/// Decimal rendering of a possibly negative number.
pub open spec fn dec_int(n: int) -> Seq<char> {
    if n < 0 {
        seq!['-'] + dec_digits(-n)
    } else {
        dec_digits(n)
    }
}

fn append_digit(out: &mut String, d: u64)
    requires
        d < 10,
    ensures
        final(out)@ == old(out)@ + seq![digit_char(d as int)],
{
    if d == 0 {
        out.append("0");
        proof {
            reveal_strlit("0");
            assert(old(out)@ + "0"@ =~= old(out)@ + seq![digit_char(0)]);
        }
    } else if d == 1 {
        out.append("1");
        proof {
            reveal_strlit("1");
            assert(old(out)@ + "1"@ =~= old(out)@ + seq![digit_char(1)]);
        }
    } else if d == 2 {
        out.append("2");
        proof {
            reveal_strlit("2");
            assert(old(out)@ + "2"@ =~= old(out)@ + seq![digit_char(2)]);
        }
    } else if d == 3 {
        out.append("3");
        proof {
            reveal_strlit("3");
            assert(old(out)@ + "3"@ =~= old(out)@ + seq![digit_char(3)]);
        }
    } else if d == 4 {
        out.append("4");
        proof {
            reveal_strlit("4");
            assert(old(out)@ + "4"@ =~= old(out)@ + seq![digit_char(4)]);
        }
    } else if d == 5 {
        out.append("5");
        proof {
            reveal_strlit("5");
            assert(old(out)@ + "5"@ =~= old(out)@ + seq![digit_char(5)]);
        }
    } else if d == 6 {
        out.append("6");
        proof {
            reveal_strlit("6");
            assert(old(out)@ + "6"@ =~= old(out)@ + seq![digit_char(6)]);
        }
    } else if d == 7 {
        out.append("7");
        proof {
            reveal_strlit("7");
            assert(old(out)@ + "7"@ =~= old(out)@ + seq![digit_char(7)]);
        }
    } else if d == 8 {
        out.append("8");
        proof {
            reveal_strlit("8");
            assert(old(out)@ + "8"@ =~= old(out)@ + seq![digit_char(8)]);
        }
    } else {
        out.append("9");
        proof {
            reveal_strlit("9");
            assert(old(out)@ + "9"@ =~= old(out)@ + seq![digit_char(9)]);
        }
    }
}

/// Appends the decimal rendering of `n`.
pub fn append_u64(out: &mut String, n: u64)
    ensures
        final(out)@ == old(out)@ + dec_digits(n as int),
    decreases n,
{
    if n >= 10 {
        append_u64(out, n / 10);
        append_digit(out, n % 10);
        proof {
            assert(final(out)@ =~= old(out)@ + dec_digits(n as int));
        }
    } else {
        append_digit(out, n);
    }
}

/// Appends the decimal rendering of `n`, with a leading minus sign when
/// `n` is negative.
pub fn append_i32(out: &mut String, n: i32)
    ensures
        final(out)@ == old(out)@ + dec_int(n as int),
{
    if n < 0 {
        out.append("-");
        let m: u64 = (-(n as i64)) as u64;
        append_u64(out, m);
        proof {
            reveal_strlit("-");
            assert("-"@ =~= seq!['-']);
            assert(final(out)@ =~= old(out)@ + dec_int(n as int));
        }
    } else {
        append_u64(out, n as u64);
    }
}

/// The suffix of `line` after its last `'\r'`; the whole line when it
/// holds none.
pub open spec fn after_last_cr(line: Seq<char>) -> Seq<char>
    decreases line.len(),
{
    if line.len() == 0 {
        line
    } else if line.last() == '\r' {
        Seq::empty()
    } else {
        after_last_cr(line.drop_last()).push(line.last())
    }
}

/// Drops a single trailing `'\r'`, as a line terminated by `"\r\n"` is
/// read without either terminator character.
pub open spec fn strip_trailing_cr(line: Seq<char>) -> Seq<char> {
    if line.len() > 0 && line.last() == '\r' {
        line.drop_last()
    } else {
        line
    }
}

pub open spec fn contains_char(s: Seq<char>, c: char) -> bool {
    exists|i: int| 0 <= i < s.len() && s[i] == c
}

/// Index of the first `'\n'` at or after `from`, or `n` (the character
/// length of `s`) when the rest of `s` holds none.
pub fn find_newline(s: &str, from: usize, n: usize) -> (r: usize)
    requires
        n as nat == s@.len(),
        from <= n,
    ensures
        from <= r <= n,
        r < n ==> s@[r as int] == '\n',
        forall|j: int| from <= j < r ==> s@[j] != '\n',
{
    let mut k: usize = from;
    while k < n
        invariant
            from <= k <= n,
            n as nat == s@.len(),
            forall|j: int| from <= j < k ==> s@[j] != '\n',
        decreases n - k,
    {
        if s.get_char(k) == '\n' {
            return k;
        }
        k = k + 1;
    }
    k
}

/// First index `r` in `[from, to)` such that the characters of `s` in
/// `[r, to)` hold no `'\r'`; equivalently, the start of what
/// [`after_last_cr`] keeps of that range.
pub fn after_cr_start(s: &str, from: usize, to: usize) -> (r: usize)
    requires
        from <= to,
        to as nat <= s@.len(),
    ensures
        from <= r <= to,
        after_last_cr(s@.subrange(from as int, to as int)) == s@.subrange(r as int, to as int),
{
    let mut cut: usize = from;
    let mut k: usize = from;
    while k < to
        invariant
            from <= cut <= k <= to,
            to as nat <= s@.len(),
            after_last_cr(s@.subrange(from as int, k as int)) == s@.subrange(
                cut as int,
                k as int,
            ),
        decreases to - k,
    {
        let c = s.get_char(k);
        proof {
            let pre = s@.subrange(from as int, k as int);
            let ext = s@.subrange(from as int, k + 1 as int);
            assert(ext =~= pre.push(s@[k as int]));
            assert(ext.drop_last() =~= pre);
            if s@[k as int] == '\r' {
                assert(after_last_cr(ext) =~= s@.subrange(k + 1 as int, k + 1 as int));
            } else {
                assert(after_last_cr(ext) =~= s@.subrange(cut as int, k + 1 as int));
            }
        }
        if c == '\r' {
            cut = k + 1;
        }
        k = k + 1;
    }
    cut
}

} // verus!
