//! Numbers as text.

use vstd::prelude::*;

verus! {

/// The figure for a number below ten.
pub open spec fn figure(d: nat) -> char {
    if d == 0 {
        '0'
    } else if d == 1 {
        '1'
    } else if d == 2 {
        '2'
    } else if d == 3 {
        '3'
    } else if d == 4 {
        '4'
    } else if d == 5 {
        '5'
    } else if d == 6 {
        '6'
    } else if d == 7 {
        '7'
    } else if d == 8 {
        '8'
    } else {
        '9'
    }
}

/// A number in decimal figures, without leading zeroes.
pub open spec fn decimal(n: nat) -> Seq<char>
    decreases n,
{
    if n < 10 {
        seq![figure(n)]
    } else {
        decimal(n / 10).push(figure(n % 10))
    }
}

/// The figures for `digits` from the last to the first.
spec fn backwards(digits: Seq<u8>) -> Seq<char>
    decreases digits.len(),
{
    if digits.len() == 0 {
        Seq::empty()
    } else {
        seq![figure(digits.last() as nat)] + backwards(digits.drop_last())
    }
}

/// The figure for a number below ten, as text.
fn figure_text(d: u8) -> (r: &'static str)
    requires
        d < 10,
    ensures
        r@ == seq![figure(d as nat)],
{
    proof {
        reveal_strlit("0");
        reveal_strlit("1");
        reveal_strlit("2");
        reveal_strlit("3");
        reveal_strlit("4");
        reveal_strlit("5");
        reveal_strlit("6");
        reveal_strlit("7");
        reveal_strlit("8");
        reveal_strlit("9");
    }
    let text = if d == 0 {
        "0"
    } else if d == 1 {
        "1"
    } else if d == 2 {
        "2"
    } else if d == 3 {
        "3"
    } else if d == 4 {
        "4"
    } else if d == 5 {
        "5"
    } else if d == 6 {
        "6"
    } else if d == 7 {
        "7"
    } else if d == 8 {
        "8"
    } else {
        "9"
    };
    proof {
        assert(text@ =~= seq![figure(d as nat)]);
    }
    text
}

/// `n` in decimal figures.
pub fn decimal_text(n: u64) -> (r: String)
    ensures
        r@ == decimal(n as nat),
{
    let mut digits: Vec<u8> = Vec::new();
    let mut rest: u64 = n;
    while rest >= 10
        invariant
            decimal(n as nat) == decimal(rest as nat) + backwards(digits@),
            forall|i: int| 0 <= i < digits@.len() ==> #[trigger] digits@[i] < 10,
        decreases rest,
    {
        let ghost before = digits@;
        digits.push((rest % 10) as u8);
        proof {
            assert(digits@.drop_last() =~= before);
            assert(decimal((rest / 10) as nat) + backwards(digits@) =~= decimal(rest as nat)
                + backwards(before));
        }
        rest = rest / 10;
    }
    let ghost before = digits@;
    digits.push(rest as u8);
    proof {
        assert(digits@.drop_last() =~= before);
        assert(backwards(digits@) =~= decimal(n as nat));
    }
    let mut text = String::new();
    let mut i: usize = digits.len();
    proof {
        assert(digits@.take(i as int) =~= digits@);
    }
    while i > 0
        invariant
            i <= digits@.len(),
            text@ + backwards(digits@.take(i as int)) == backwards(digits@),
            forall|j: int| 0 <= j < digits@.len() ==> #[trigger] digits@[j] < 10,
        decreases i,
    {
        i -= 1;
        proof {
            assert(digits@.take(i + 1).drop_last() =~= digits@.take(i as int));
            assert(digits@.take(i + 1).last() == digits@[i as int]);
        }
        let ghost so_far = text@;
        text.append(figure_text(digits[i]));
        proof {
            assert(text@ + backwards(digits@.take(i as int)) =~= so_far + backwards(
                digits@.take(i + 1),
            ));
        }
    }
    proof {
        assert(backwards(digits@.take(0)) =~= Seq::<char>::empty());
        assert(text@ =~= backwards(digits@));
    }
    text
}

} // verus!
