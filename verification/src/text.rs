//! Writing numbers into text: decimal, binary and hexadecimal digits.
use vstd::prelude::*;
use vstd::string::StringExecFns;

verus! {

/// The ASCII digit for `d` (below 16): `0`-`9`, then `a`-`f`.
pub open spec fn digit_char(d: nat) -> char {
    if d < 10 {
        (48 + d) as char
    } else {
        (87 + d) as char
    }
}

/// The decimal digits of `n`, most significant first, without leading zeros.
pub open spec fn decimal(n: nat) -> Seq<char>
    decreases n,
{
    if n < 10 {
        seq![digit_char(n)]
    } else {
        decimal(n / 10) + seq![digit_char(n % 10)]
    }
}

/// The binary digits of `n`, most significant first, padded with zeros to at least `width`.
pub open spec fn binary_padded(n: nat, width: nat) -> Seq<char>
    decreases width, n,
{
    if n < 2 && width <= 1 {
        seq![digit_char(n)]
    } else {
        binary_padded(n / 2, if width > 0 {
            (width - 1) as nat
        } else {
            0
        }) + seq![digit_char(n % 2)]
    }
}

/// `s` repeated `n` times.
pub open spec fn repeated(s: Seq<char>, n: nat) -> Seq<char>
    decreases n,
{
    if n == 0 {
        seq![]
    } else {
        repeated(s, (n - 1) as nat) + s
    }
}

/// The number the decimal digits `s` stand for, most significant first.
pub open spec fn decimal_value(s: Seq<char>) -> int
    decreases s.len(),
{
    if s.len() == 0 {
        0
    } else {
        decimal_value(s.drop_last()) * 10 + (s.last() as int - 48)
    }
}

/// The number the binary digits `s` stand for, most significant first.
pub open spec fn binary_value(s: Seq<char>) -> int
    decreases s.len(),
{
    if s.len() == 0 {
        0
    } else {
        binary_value(s.drop_last()) * 2 + (s.last() as int - 48)
    }
}

/// The code of the digit for `d` (below 16): `48 + d` for `0`-`9`, `87 + d` for `a`-`f`.
pub proof fn lemma_digit_char(d: nat)
    requires
        d < 16,
    ensures
        digit_char(d) as int == if d < 10 {
            48 + d
        } else {
            87 + d
        },
{
    if d < 10 {
        assert(((48 + d) as char) as int == 48 + d);
    } else {
        assert(((87 + d) as char) as int == 87 + d);
    }
}

/// The decimal text of a number reads back as that number: it is made of the digits `0` to
/// `9`, has no leading zero, and stands for `n`.
pub proof fn lemma_decimal_reads_back(n: nat)
    ensures
        decimal(n).len() >= 1,
        n >= 10 ==> decimal(n).len() >= 2,
        forall|i: int| 0 <= i < decimal(n).len() ==> '0' <= #[trigger] decimal(n)[i] <= '9',
        decimal(n).len() > 1 ==> decimal(n)[0] != '0',
        decimal_value(decimal(n)) == n,
    decreases n,
{
    let d = decimal(n);
    if n >= 10 {
        lemma_decimal_reads_back(n / 10);
        lemma_digit_char(n % 10);
        lemma_digit_char(0);
        assert(d.drop_last() =~= decimal(n / 10));
        assert(d.last() == digit_char(n % 10));
        if n / 10 < 10 {
            lemma_digit_char(n / 10);
        }
        assert(d[0] == decimal(n / 10)[0]);
        assert(decimal_value(d) == decimal_value(decimal(n / 10)) * 10 + (digit_char(n % 10) as int
            - 48));
        assert((n / 10) * 10 + n % 10 == n) by (nonlinear_arith);
    } else {
        lemma_digit_char(n);
        assert(d.drop_last() =~= seq![]);
        assert(decimal_value(d.drop_last()) == 0);
        assert(decimal_value(d) == decimal_value(d.drop_last()) * 10 + (d.last() as int - 48));
    }
}

/// The binary text of a number padded to `width` reads back as that number: it is made of
/// the digits `0` and `1`, is at least `width` digits long, has no leading zero beyond that
/// width, and stands for `n`.
pub proof fn lemma_binary_reads_back(n: nat, width: nat)
    ensures
        binary_padded(n, width).len() >= 1,
        binary_padded(n, width).len() >= width,
        !(n < 2 && width <= 1) ==> binary_padded(n, width).len() >= 2,
        forall|i: int|
            0 <= i < binary_padded(n, width).len() ==> '0' <= #[trigger] binary_padded(n, width)[i]
                <= '1',
        binary_padded(n, width).len() > width && binary_padded(n, width).len() > 1
            ==> binary_padded(n, width)[0] == '1',
        binary_value(binary_padded(n, width)) == n,
    decreases width, n,
{
    if !(n < 2 && width <= 1) {
        let w2 = if width > 0 {
            (width - 1) as nat
        } else {
            0
        };
        lemma_binary_reads_back(n / 2, w2);
        lemma_digit_char(n % 2);
        let b = binary_padded(n, width);
        let prev = binary_padded(n / 2, w2);
        assert(b.drop_last() =~= prev);
        assert(b.last() == digit_char(n % 2));
        assert(b[0] == prev[0]);
        if n / 2 < 2 {
            lemma_digit_char(n / 2);
        }
        assert(binary_value(b) == binary_value(prev) * 2 + (digit_char(n % 2) as int - 48));
        assert((n / 2) * 2 + n % 2 == n) by (nonlinear_arith);
    } else {
        lemma_digit_char(n);
        let b = binary_padded(n, width);
        assert(b.drop_last() =~= seq![]);
        assert(binary_value(b.drop_last()) == 0);
        assert(binary_value(b) == binary_value(b.drop_last()) * 2 + (b.last() as int - 48));
    }
}

/// The one-character text of digit `d`.
pub fn digit_str(d: u64) -> (s: &'static str)
    requires
        d < 16,
    ensures
        s@ == seq![digit_char(d as nat)],
{
    proof {
        reveal_strlit("0");
        reveal_strlit("1");
        reveal_strlit("2");
        reveal_strlit("3");
        reveal_strlit("4");
        reveal_strlit("5");
        reveal_strlit("6");
        reveal_strlit("7");
        reveal_strlit("8");
        reveal_strlit("9");
        reveal_strlit("a");
        reveal_strlit("b");
        reveal_strlit("c");
        reveal_strlit("d");
        reveal_strlit("e");
        reveal_strlit("f");
    }
    let s = if d == 0 {
        "0"
    } else if d == 1 {
        "1"
    } else if d == 2 {
        "2"
    } else if d == 3 {
        "3"
    } else if d == 4 {
        "4"
    } else if d == 5 {
        "5"
    } else if d == 6 {
        "6"
    } else if d == 7 {
        "7"
    } else if d == 8 {
        "8"
    } else if d == 9 {
        "9"
    } else if d == 10 {
        "a"
    } else if d == 11 {
        "b"
    } else if d == 12 {
        "c"
    } else if d == 13 {
        "d"
    } else if d == 14 {
        "e"
    } else {
        "f"
    };
    assert(s@ =~= seq![digit_char(d as nat)]);
    s
}

/// Appends the decimal digits of `n`.
pub fn push_decimal(out: &mut String, n: u64)
    ensures
        final(out)@ == old(out)@ + decimal(n as nat),
    decreases n,
{
    if n >= 10 {
        push_decimal(out, n / 10);
    }
    let d = digit_str(n % 10);
    out.append(d);
    proof {
        if n >= 10 {
            assert(final(out)@ =~= old(out)@ + decimal(n as nat));
        } else {
            assert(final(out)@ =~= old(out)@ + decimal(n as nat));
        }
    }
}

/// Appends the binary digits of `n`, padded with zeros to at least `width` digits.
pub fn push_binary(out: &mut String, n: u64, width: u64)
    ensures
        final(out)@ == old(out)@ + binary_padded(n as nat, width as nat),
    decreases width, n,
{
    if !(n < 2 && width <= 1) {
        push_binary(
            out,
            n / 2,
            if width > 0 {
                width - 1
            } else {
                0
            },
        );
    }
    let d = digit_str(n % 2);
    out.append(d);
    proof {
        assert(final(out)@ =~= old(out)@ + binary_padded(n as nat, width as nat));
    }
}

/// Appends `s` `n` times.
pub fn push_repeated(out: &mut String, s: &str, n: usize)
    ensures
        final(out)@ == old(out)@ + repeated(s@, n as nat),
{
    let ghost start = out@;
    let mut i: usize = 0;
    while i < n
        invariant
            i <= n,
            out@ == start + repeated(s@, i as nat),
        decreases n - i,
    {
        out.append(s);
        proof {
            assert(out@ =~= start + repeated(s@, (i + 1) as nat));
        }
        i += 1;
    }
}

} // verus!
