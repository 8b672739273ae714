//! Decimal rendering and column alignment for the textual form of a game.

use vstd::prelude::*;

verus! {

/// The character of decimal digit `d`.
pub open spec fn digit_char(d: nat) -> char {
    if d == 0 {
        '0'
    } else if d == 1 {
        '1'
    } else if d == 2 {
        '2'
    } else if d == 3 {
        '3'
    } else if d == 4 {
        '4'
    } else if d == 5 {
        '5'
    } else if d == 6 {
        '6'
    } else if d == 7 {
        '7'
    } else if d == 8 {
        '8'
    } else {
        '9'
    }
}

/// The decimal digits of `n`, most significant first, without leading zeros.
pub open spec fn decimal(n: nat) -> Seq<char>
    decreases n,
{
    if n < 10 {
        seq![digit_char(n)]
    } else {
        decimal(n / 10).push(digit_char(n % 10))
    }
}

/// The decimal form of `x`, with a leading `-` when it is negative.
pub open spec fn signed_decimal(x: int) -> Seq<char> {
    if x < 0 {
        seq!['-'] + decimal((-x) as nat)
    } else {
        decimal(x as nat)
    }
}

/// `s` right-aligned in a column of `width` characters: padded on the left
/// with spaces when shorter, unchanged otherwise.
pub open spec fn right_aligned(s: Seq<char>, width: nat) -> Seq<char> {
    if s.len() < width {
        Seq::new((width - s.len()) as nat, |i: int| ' ') + s
    } else {
        s
    }
}

/// The one-character text of digit `d`.
fn digit_str(d: u64) -> (s: &'static str)
    requires
        d < 10,
    ensures
        s@ == seq![digit_char(d as nat)],
{
    proof {
        reveal_strlit("0");
        reveal_strlit("1");
        reveal_strlit("2");
        reveal_strlit("3");
        reveal_strlit("4");
        reveal_strlit("5");
        reveal_strlit("6");
        reveal_strlit("7");
        reveal_strlit("8");
        reveal_strlit("9");
    }
    if d == 0 {
        "0"
    } else if d == 1 {
        "1"
    } else if d == 2 {
        "2"
    } else if d == 3 {
        "3"
    } else if d == 4 {
        "4"
    } else if d == 5 {
        "5"
    } else if d == 6 {
        "6"
    } else if d == 7 {
        "7"
    } else if d == 8 {
        "8"
    } else {
        "9"
    }
}

/// Append the decimal digits of `n` to `out`.
pub fn push_decimal(out: &mut String, n: u64)
    ensures
        final(out)@ == old(out)@ + decimal(n as nat),
    decreases n,
{
    if n >= 10 {
        push_decimal(out, n / 10);
    }
    out.append(digit_str(n % 10));
    proof {
        if n >= 10 {
            assert(decimal(n as nat) == decimal((n / 10) as nat).push(digit_char((n % 10) as nat)));
        }
    }
}

/// Append the decimal form of `x` to `out`.
pub fn push_signed_decimal(out: &mut String, x: i64)
    ensures
        final(out)@ == old(out)@ + signed_decimal(x as int),
{
    if x < 0 {
        proof {
            reveal_strlit("-");
        }
        out.append("-");
        let magnitude = (0i128 - x as i128) as u64;
        let ghost mid = out@;
        push_decimal(out, magnitude);
        assert(out@ == mid + decimal((-x) as nat));
    } else {
        push_decimal(out, x as u64);
    }
}

/// Append `s` to `out`, right-aligned in a column of `width` characters.
pub fn push_right_aligned(out: &mut String, s: &str, width: usize)
    ensures
        final(out)@ == old(out)@ + right_aligned(s@, width as nat),
{
    proof {
        reveal_strlit(" ");
    }
    let len = s.unicode_len();
    if len < width {
        let ghost start = out@;
        let mut i: usize = 0;
        while i < width - len
            invariant
                len == s@.len(),
                len < width,
                i <= width - len,
                out@ == start + Seq::new(i as nat, |j: int| ' '),
            decreases width - len - i,
        {
            proof {
                reveal_strlit(" ");
            }
            out.append(" ");
            assert(Seq::new((i + 1) as nat, |j: int| ' ') =~= Seq::new(i as nat, |j: int| ' ').push(' '));
            assert(out@ =~= start + Seq::new((i + 1) as nat, |j: int| ' '));
            i = i + 1;
        }
    }
    out.append(s);
    proof {
        if len < width {
            assert(out@ =~= old(out)@ + right_aligned(s@, width as nat));
        }
    }
}

/// The decimal form of `n` written with the characters `'0'` to `'9'`: a
/// single digit for `n < 10`, and otherwise the decimal form of `n / 10`
/// followed by the digit of `n % 10`; it never starts with `'0'` unless `n` is 0.
pub proof fn lemma_decimal_digits(n: nat)
    ensures
        decimal(n).len() >= 1,
        decimal(n).last() as int == '0' as int + n % 10,
        n < 10 ==> decimal(n).len() == 1,
        n >= 10 ==> decimal(n).drop_last() == decimal(n / 10),
        forall|i: int| 0 <= i < decimal(n).len() ==> '0' <= #[trigger] decimal(n)[i] <= '9',
        n > 0 ==> decimal(n)[0] != '0',
    decreases n,
{
    if n >= 10 {
        lemma_decimal_digits(n / 10);
        let d = decimal(n / 10);
        assert(decimal(n) == d.push(digit_char(n % 10)));
        assert forall|i: int| 0 <= i < decimal(n).len() implies '0' <= #[trigger] decimal(n)[i] <= '9' by {
            if i < d.len() {
                assert(decimal(n)[i] == d[i]);
            }
        }
        assert(decimal(n)[0] == d[0]);
    }
}

/// A negative number is written as `-` followed by the decimal form of its
/// magnitude; any other number as its decimal form.
pub proof fn lemma_signed_decimal_sign(x: int)
    ensures
        x < 0 ==> signed_decimal(x) == seq!['-'] + decimal((-x) as nat),
        x >= 0 ==> signed_decimal(x) == decimal(x as nat),
{
}

/// Right alignment keeps the text as its suffix, pads only with spaces, and
/// yields exactly `width` characters unless the text is already longer.
pub proof fn lemma_right_aligned_shape(s: Seq<char>, width: nat)
    ensures
        right_aligned(s, width).len() == if s.len() < width { width } else { s.len() },
        right_aligned(s, width).subrange(
            right_aligned(s, width).len() - s.len(),
            right_aligned(s, width).len() as int,
        ) == s,
        forall|i: int|
            0 <= i < right_aligned(s, width).len() - s.len() ==> #[trigger] right_aligned(s, width)[i] == ' ',
{
    let r = right_aligned(s, width);
    assert(r.subrange(r.len() - s.len(), r.len() as int) =~= s);
}

} // verus!
