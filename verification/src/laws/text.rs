//! What numbers read as in messages.
use vstd::prelude::*;
use crate::text::{decimal, digit};

verus! {

/// The number that decimal digits stand for.
pub open spec fn number_of(text: Seq<char>) -> int
    decreases text.len(),
{
    if text.len() == 0 {
        0
    } else {
        10 * number_of(text.drop_last()) + (text.last() as int - 48)
    }
}

/// A number is written in decimal digits that stand for it, without a leading zero.
pub proof fn numbers_are_written_in_decimal(n: nat)
    ensures
        decimal(n).len() >= 1,
        number_of(decimal(n)) == n,
        n > 0 ==> decimal(n)[0] != '0',
        forall|i: int| 0 <= i < decimal(n).len() ==> '0' <= #[trigger] decimal(n)[i] <= '9',
    decreases n,
{
    let text = decimal(n);
    assert(digit(n % 10) as int == 48 + n % 10);
    if n < 10 {
        assert(text.drop_last() =~= seq![]);
        assert(text.last() as int == 48 + n);
        assert(number_of(text.drop_last()) == 0);
    } else {
        numbers_are_written_in_decimal(n / 10);
        assert(text.drop_last() =~= decimal(n / 10));
        assert(number_of(text.drop_last()) == n / 10);
        assert(text.last() as int == 48 + n % 10);
        assert(text[0] == decimal(n / 10)[0]);
        assert forall|i: int| 0 <= i < text.len() implies '0' <= #[trigger] text[i] <= '9' by {
            if i < text.len() - 1 {
                assert(text[i] == decimal(n / 10)[i]);
            }
        }
    }
}

} // verus!
