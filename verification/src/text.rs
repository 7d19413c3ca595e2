//! Numbers written out as text.
//!
//! Everything this crate prints goes through here, so what a message says is
//! a sequence of characters the contracts can speak of.

use vstd::prelude::*;
use vstd::string::*;

verus! {

/// The character of one decimal or hexadecimal digit, in lower case.
pub open spec fn digit(d: nat) -> char {
    if d < 10 {
        ('0' as nat + d) as char
    } else {
        ('a' as nat + (d - 10)) as char
    }
}

/// A number in decimal, with no leading zero.
pub open spec fn decimal(n: nat) -> Seq<char>
    decreases n,
{
    if n < 10 {
        seq![digit(n)]
    } else {
        decimal(n / 10).push(digit(n % 10))
    }
}

/// A signed number in decimal.
pub open spec fn signed(n: int) -> Seq<char> {
    if n < 0 {
        seq!['-'] + decimal((-n) as nat)
    } else {
        decimal(n as nat)
    }
}

/// The low `width` digits of a number in `base`, most significant first and
/// filled out with zeros.
pub open spec fn padded(n: nat, base: nat, width: nat) -> Seq<char>
    decreases width,
{
    if width == 0 {
        Seq::empty()
    } else {
        padded(n / base, base, (width - 1) as nat).push(digit(n % base))
    }
}

/// The digits of a number in `base` after however many zeros bring it to
/// `width`, or the digits alone where they are wider.
pub open spec fn at_least(n: nat, base: nat, width: nat) -> Seq<char>
    decreases n,
{
    if base <= 1 {
        Seq::empty()
    } else if n < base {
        if width <= 1 {
            seq![digit(n)]
        } else {
            padded(n, base, width)
        }
    } else {
        proof {
            assert(n / base < n) by (nonlinear_arith)
                requires
                    n >= base,
                    base >= 2,
            ;
        }
        at_least(n / base, base, if width == 0 { 0 } else { (width - 1) as nat }).push(
            digit(n % base),
        )
    }
}

/// One digit, as the string that holds it.
fn digit_str(d: u64) -> (s: &'static str)
    requires
        d < 16,
    ensures
        s@ == seq![digit(d as nat)],
{
    proof {
        reveal_strlit("0");
        reveal_strlit("1");
        reveal_strlit("2");
        reveal_strlit("3");
        reveal_strlit("4");
        reveal_strlit("5");
        reveal_strlit("6");
        reveal_strlit("7");
        reveal_strlit("8");
        reveal_strlit("9");
        reveal_strlit("a");
        reveal_strlit("b");
        reveal_strlit("c");
        reveal_strlit("d");
        reveal_strlit("e");
        reveal_strlit("f");
    }
    let s: &'static str = match d {
        0 => "0",
        1 => "1",
        2 => "2",
        3 => "3",
        4 => "4",
        5 => "5",
        6 => "6",
        7 => "7",
        8 => "8",
        9 => "9",
        10 => "a",
        11 => "b",
        12 => "c",
        13 => "d",
        14 => "e",
        _ => "f",
    };
    assert(s@ =~= seq![digit(d as nat)]);
    s
}

/// Appends a number in decimal.
pub fn push_decimal(out: &mut String, n: u64)
    ensures
        final(out)@ == old(out)@ + decimal(n as nat),
    decreases n,
{
    if n >= 10 {
        push_decimal(out, n / 10);
    }
    let ghost before = out@;
    out.append(digit_str(n % 10));
    proof {
        if n >= 10 {
            assert(out@ =~= old(out)@ + decimal(n as nat));
        } else {
            assert(out@ =~= old(out)@ + decimal(n as nat));
        }
    }
}

/// Appends a signed number in decimal.
pub fn push_signed(out: &mut String, n: i64)
    ensures
        final(out)@ == old(out)@ + signed(n as int),
{
    if n < 0 {
        proof {
            reveal_strlit("-");
        }
        out.append("-");
        assert("-"@ =~= seq!['-']);
        let m: u64 = if n == i64::MIN {
            0x8000_0000_0000_0000
        } else {
            (-n) as u64
        };
        assert(m == -n);
        push_decimal(out, m);
        assert(out@ =~= old(out)@ + signed(n as int));
    } else {
        push_decimal(out, n as u64);
    }
}

/// Appends the low `width` digits of a number in `base`.
pub fn push_padded(out: &mut String, n: u64, base: u64, width: usize)
    requires
        2 <= base <= 16,
    ensures
        final(out)@ == old(out)@ + padded(n as nat, base as nat, width as nat),
    decreases width,
{
    if width > 0 {
        push_padded(out, n / base, base, width - 1);
        out.append(digit_str(n % base));
    }
    assert(out@ =~= old(out)@ + padded(n as nat, base as nat, width as nat));
}

/// Appends a number in `base`, with zeros in front where it is narrower than
/// `width`.
pub fn push_at_least(out: &mut String, n: u64, base: u64, width: usize)
    requires
        2 <= base <= 16,
    ensures
        final(out)@ == old(out)@ + at_least(n as nat, base as nat, width as nat),
    decreases n,
{
    if n < base {
        if width <= 1 {
            out.append(digit_str(n));
        } else {
            push_padded(out, n, base, width);
        }
    } else {
        assert(n / base < n) by (nonlinear_arith)
            requires
                n >= base,
                base >= 2,
        ;
        let narrower: usize = if width == 0 {
            0
        } else {
            width - 1
        };
        push_at_least(out, n / base, base, narrower);
        out.append(digit_str(n % base));
        assert(out@ =~= old(out)@ + at_least(n as nat, base as nat, width as nat));
    }
}

/// A word or two, then a number in decimal.
pub fn labeled(label: &str, n: u64) -> (s: String)
    ensures
        s@ == label@ + decimal(n as nat),
{
    let mut s = String::new();
    s.append(label);
    push_decimal(&mut s, n);
    assert(s@ =~= label@ + decimal(n as nat));
    s
}

/// The number that a run of decimal digits spells.
pub open spec fn spelled(s: Seq<char>) -> int
    decreases s.len(),
{
    if s.len() == 0 {
        0
    } else {
        10 * spelled(s.drop_last()) + (s.last() as int - '0' as int)
    }
}

/// A number in decimal is digits that spell it, and no more of them than it
/// takes: the first is nought only where the number is.
pub proof fn law_a_decimal_spells_its_number(n: nat)
    ensures
        spelled(decimal(n)) == n,
        decimal(n).len() > 0,
        forall|i: int| 0 <= i < decimal(n).len() ==> '0' <= #[trigger] decimal(n)[i] <= '9',
        decimal(n)[0] == '0' <==> n == 0,
    decreases n,
{
    if n < 10 {
        assert(decimal(n).drop_last() =~= Seq::<char>::empty());
        assert(spelled(Seq::<char>::empty()) == 0);
        assert(decimal(n).last() == digit(n));
    } else {
        let front = decimal(n / 10);
        law_a_decimal_spells_its_number(n / 10);
        assert(decimal(n).drop_last() =~= front);
        assert(decimal(n).last() == digit(n % 10));
        assert forall|i: int| 0 <= i < decimal(n).len() implies '0' <= #[trigger] decimal(n)[i]
            <= '9' by {
            if i < front.len() {
                assert(decimal(n)[i] == front[i]);
            }
        }
        assert(decimal(n)[0] == front[0]);
    }
}

/// A number below nought is its size after a dash, and any other its size.
pub proof fn law_a_negative_is_its_size_after_a_dash(n: nat)
    requires
        n > 0,
    ensures
        signed(-(n as int)).len() == decimal(n).len() + 1,
        signed(-(n as int))[0] == '-',
        signed(-(n as int)).skip(1) == decimal(n),
        signed(n as int) == decimal(n),
{
    assert(signed(-(n as int)).skip(1) =~= decimal(n));
}

} // verus!
