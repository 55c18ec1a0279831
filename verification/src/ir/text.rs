//! Numbers in words of digits.

use vstd::prelude::*;

verus! {

/// Text that is made of numbers.
pub struct Text;

impl Text {
    /// The digit for a number below ten.
    pub open spec fn digit(d: nat) -> char {
        "0123456789"@[d as int]
    }

    /// The decimal digits of a number, without leading zeros.
    pub open spec fn decimal(n: nat) -> Seq<char>
        decreases n,
    {
        if n < 10 {
            seq![Text::digit(n)]
        } else {
            Text::decimal(n / 10).push(Text::digit(n % 10))
        }
    }

    /// Writes a number in decimal digits.
    pub fn write_decimal(n: usize) -> (s: String)
        ensures
            s@ == Text::decimal(n as nat),
        decreases n,
    {
        let digits = "0123456789";
        proof {
            reveal_strlit("0123456789");
        }
        if n < 10 {
            let s = String::from_str(digits.substring_char(n, n + 1));
            assert(s@ =~= Text::decimal(n as nat));
            s
        } else {
            let mut s = Text::write_decimal(n / 10);
            let d: usize = n % 10;
            s.append(digits.substring_char(d, d + 1));
            assert(s@ =~= Text::decimal(n as nat));
            s
        }
    }

    /// The number that a text of digits stands for.
    pub open spec fn number(text: Seq<char>) -> int
        decreases text.len(),
    {
        if text.len() == 0 {
            0
        } else {
            Text::number(text.drop_last()) * 10 + (text.last() as int - '0' as int)
        }
    }

    /// The decimal digits of a number stand for that number, are digits, and do not begin with a
    /// zero unless that is all.
    pub proof fn decimal_stands_for(n: nat)
        ensures
            Text::decimal(n).len() > 0,
            Text::number(Text::decimal(n)) == n,
            forall|i: int| 0 <= i < Text::decimal(n).len() ==> '0' <= #[trigger] Text::decimal(n)[i] <= '9',
            Text::decimal(n)[0] == '0' ==> n == 0,
        decreases n,
    {
        reveal_strlit("0123456789");
        if n < 10 {
            let text = seq![Text::digit(n)];
            assert(text.drop_last().len() == 0);
            assert(Text::number(text.drop_last()) == 0);
        } else {
            Text::decimal_stands_for(n / 10);
            let front = Text::decimal(n / 10);
            assert(Text::decimal(n).drop_last() =~= front);
            assert(Text::decimal(n)[0] == front[0]);
            assert forall|i: int| 0 <= i < Text::decimal(n).len() implies '0' <= #[trigger] Text::decimal(
                n,
            )[i] <= '9' by {
                if i < front.len() {
                    assert(Text::decimal(n)[i] == front[i]);
                }
            }
        }
    }
}

} // verus!
