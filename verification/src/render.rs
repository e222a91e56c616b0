//! Decimal rendering and space padding, shared by the token table and the
//! diagnostic block.  All widths and positions are counted in characters.

use vstd::prelude::*;

verus! {

/// The digit character for `d`, a value from 0 to 9.
pub open spec fn digit_char(d: int) -> char {
    if d == 0 {
        '0'
    } else if d == 1 {
        '1'
    } else if d == 2 {
        '2'
    } else if d == 3 {
        '3'
    } else if d == 4 {
        '4'
    } else if d == 5 {
        '5'
    } else if d == 6 {
        '6'
    } else if d == 7 {
        '7'
    } else if d == 8 {
        '8'
    } else {
        '9'
    }
}

/// The decimal representation of a non-negative integer, most significant
/// digit first, with no sign and no leading zeros.
pub open spec fn dec_str(n: int) -> Seq<char>
    decreases n,
{
    if n < 10 {
        seq![digit_char(n)]
    } else {
        dec_str(n / 10).push(digit_char(n % 10))
    }
}

/// `n` space characters.
pub open spec fn spaces(n: int) -> Seq<char>
    decreases n,
{
    if n <= 0 {
        Seq::empty()
    } else {
        spaces(n - 1).push(' ')
    }
}

/// `s` padded on the right with spaces to width `w`; `s` itself when it is
/// already at least that wide.
pub open spec fn pad_right(s: Seq<char>, w: int) -> Seq<char> {
    s + spaces(w - s.len())
}

/// Splitting a run of spaces: padding by `a + b` spaces is padding by `a`
/// and then by `b`.
pub proof fn lemma_spaces_add(a: int, b: int)
    requires
        a >= 0,
        b >= 0,
    ensures
        spaces(a + b) == spaces(a) + spaces(b),
    decreases b,
{
    if b == 0 {
        assert(spaces(a) + spaces(0) =~= spaces(a));
    } else {
        lemma_spaces_add(a, b - 1);
        assert(spaces(a) + spaces(b) =~= (spaces(a) + spaces(b - 1)).push(' '));
    }
}

fn digit_string(d: usize) -> (r: &'static str)
    requires
        d < 10,
    ensures
        r@ == seq![digit_char(d as int)],
{
    let r: &'static str = if d == 0 {
        "0"
    } else if d == 1 {
        "1"
    } else if d == 2 {
        "2"
    } else if d == 3 {
        "3"
    } else if d == 4 {
        "4"
    } else if d == 5 {
        "5"
    } else if d == 6 {
        "6"
    } else if d == 7 {
        "7"
    } else if d == 8 {
        "8"
    } else {
        "9"
    };
    proof {
        reveal_strlit("0");
        reveal_strlit("1");
        reveal_strlit("2");
        reveal_strlit("3");
        reveal_strlit("4");
        reveal_strlit("5");
        reveal_strlit("6");
        reveal_strlit("7");
        reveal_strlit("8");
        reveal_strlit("9");
    }
    r
}

/// The decimal digits of `n`, as [`dec_str`] spells them.
pub fn dec_string(n: usize) -> (r: String)
    ensures
        r@ == dec_str(n as int),
    decreases n,
{
    let d = digit_string(n % 10);
    if n < 10 {
        String::from_str(d)
    } else {
        let prefix = dec_string(n / 10);
        let r = prefix.concat(d);
        proof {
            assert(dec_str(n as int / 10) + seq![digit_char(n as int % 10)] =~= dec_str(
                n as int / 10,
            ).push(digit_char(n as int % 10)));
        }
        r
    }
}

/// Appends `n` spaces to `out`.
pub fn append_spaces(out: &mut String, n: usize)
    ensures
        final(out)@ == old(out)@ + spaces(n as int),
{
    let mut i: usize = 0;
    proof {
        assert(old(out)@ + spaces(0) =~= old(out)@);
    }
    while i < n
        invariant
            i <= n,
            out@ == old(out)@ + spaces(i as int),
        decreases n - i,
    {
        out.append(" ");
        i = i + 1;
        proof {
            reveal_strlit(" ");
            assert((old(out)@ + spaces(i - 1)) + " "@ =~= old(out)@ + spaces(i as int));
        }
    }
}

/// Appends `s` to `out`, padded on the right with spaces to width `w`.
pub fn append_padded(out: &mut String, s: &str, w: usize)
    ensures
        final(out)@ == old(out)@ + pad_right(s@, w as int),
{
    out.append(s);
    let l: usize = s.unicode_len();
    if l < w {
        append_spaces(out, w - l);
        proof {
            assert((old(out)@ + s@) + spaces((w - l) as int) =~= old(out)@ + pad_right(
                s@,
                w as int,
            ));
        }
    } else {
        proof {
            assert(spaces(w as int - s@.len() as int) =~= Seq::<char>::empty());
            assert(old(out)@ + s@ =~= old(out)@ + pad_right(s@, w as int));
        }
    }
}

} // verus!
