//! The y axis of the chart: a column of price ticks left of the candles.
use vstd::prelude::*;

use crate::text::string_from_chars;

verus! {

/// Characters for a price before its decimal point.
pub const CHAR_PRECISION: i64 = 6;

/// Decimals of a price.
pub const DEC_PRECISION: i64 = 2;

/// Spaces right of the axis.
pub const MARGIN_RIGHT: i64 = 4;

/// The width of the axis column.
pub const WIDTH: i64 = CHAR_PRECISION + MARGIN_RIGHT + 1 + DEC_PRECISION + MARGIN_RIGHT;

/// The y axis.
#[derive(Debug)]
pub struct YAxis {}

/// `n` spaces.
pub open spec fn spaces(n: nat) -> Seq<char> {
    Seq::new(n, |_i: int| ' ')
}

/// Appends `n` spaces to `v`.
fn push_spaces(v: &mut Vec<char>, n: usize)
    ensures
        final(v)@ == old(v)@ + spaces(n as nat),
{
    let mut i: usize = 0;
    while i < n
        invariant
            i <= n,
            v@ == old(v)@ + spaces(i as nat),
        decreases n - i,
    {
        v.push(' ');
        i += 1;
        assert(v@ =~= old(v)@ + spaces(i as nat));
    }
}

impl YAxis {
    /// A line of the axis without a tick: the blank price cell, the axis and
    /// the right margin.
    pub fn render_empty() -> (line: String)
        ensures
            line@ == spaces((CHAR_PRECISION + DEC_PRECISION + 2) as nat) + seq!['|'] + spaces(
                (MARGIN_RIGHT + 1) as nat,
            ),
    {
        let mut v: Vec<char> = Vec::new();
        push_spaces(&mut v, (CHAR_PRECISION + DEC_PRECISION + 2) as usize);
        v.push('|');
        push_spaces(&mut v, (MARGIN_RIGHT + 1) as usize);
        string_from_chars(v.as_slice())
    }
}

} // verus!
