use vstd::prelude::*;

use vstd::string::StrSliceExecFns;

use crate::order::Side;

verus! {

/// The side named by a record's side symbol: exactly `"B"` is a bid,
/// anything else an ask.
pub open spec fn spec_side_from_symbol(s: Seq<char>) -> Side {
    if s == seq!['B'] {
        Side::Bid
    } else {
        Side::Ask
    }
}

/// Reads a record's side symbol.
#[must_use]
pub fn parse_side_from_csv(csv_side: &str) -> (side: Side)
    ensures
        side == spec_side_from_symbol(csv_side@),
{
    proof {
        let b = seq!['B'];
        assert(b.len() == 1 && b[0] == 'B');
    }
    if csv_side.unicode_len() == 1 && csv_side.get_char(0) == 'B' {
        proof {
            assert(csv_side@ =~= seq!['B']);
        }
        Side::Bid
    } else {
        Side::Ask
    }
}

/// Writes a side as its record symbol: `"B"` for a bid, `"S"` for an ask.
#[must_use]
pub fn parse_side_to_csv(side: Side) -> (r: &'static str)
    ensures
        side is Bid ==> r@ == "B"@,
        side is Ask ==> r@ == "S"@,
{
    if side == Side::Bid {
        "B"
    } else {
        "S"
    }
}

} // verus!
