//! The arrangement of charts in the window, and the keys that send signals
//! to charts.

use vstd::prelude::*;

verus! {

/// The ways to arrange the charts: rows by columns.
#[allow(non_camel_case_types)]
#[derive(Clone, Copy, Debug, PartialEq, Eq, Structural)]
pub enum LayoutVariation {
    _1x1,
    _1x2,
    _2x1,
    _2x2,
    _3x2,
}

/// Which of the six charts a layout shows. The charts stand in a grid of
/// three columns and two rows, filled column by column: charts 1 and 2 in the
/// first column, 3 and 4 in the second, 5 and 6 in the third.
pub open spec fn shown(var: LayoutVariation) -> Seq<bool> {
    match var {
        LayoutVariation::_1x1 => seq![true, false, false, false, false, false],
        LayoutVariation::_1x2 => seq![true, true, false, false, false, false],
        LayoutVariation::_2x1 => seq![true, false, true, false, false, false],
        LayoutVariation::_2x2 => seq![true, true, true, true, false, false],
        LayoutVariation::_3x2 => seq![true, true, true, true, true, true],
    }
}

/// Which of the six charts the layout `var` shows, chart 1 first.
pub fn visible_charts(var: LayoutVariation) -> (r: [bool; 6])
    ensures
        r@ == shown(var),
{
    let r = match var {
        LayoutVariation::_1x1 => [true, false, false, false, false, false],
        LayoutVariation::_1x2 => [true, true, false, false, false, false],
        LayoutVariation::_2x1 => [true, false, true, false, false, false],
        LayoutVariation::_2x2 => [true, true, true, true, false, false],
        LayoutVariation::_3x2 => [true, true, true, true, true, true],
    };
    assert(r@ =~= shown(var));
    r
}

/// The chart that a key sends the selected signals to: keys `1` to `9` the
/// charts 1 to 9, keys `A` to `F` the charts 10 to 15; other keys none.
pub open spec fn key_chart(key: char) -> Option<nat> {
    if '1' <= key && key <= '9' {
        Some((key as nat - '0' as nat) as nat)
    } else if 'A' <= key && key <= 'F' {
        Some((key as nat - 'A' as nat + 10) as nat)
    } else {
        None
    }
}

/// The chart that the key `key` sends the selected signals to, if any.
pub fn chart_for_key(key: char) -> (r: Option<usize>)
    ensures
        match key_chart(key) {
            Some(c) => r == Some(c as usize),
            None => r is None,
        },
{
    if '1' <= key && key <= '9' {
        Some((key as u32 - '0' as u32) as usize)
    } else if 'A' <= key && key <= 'F' {
        Some((key as u32 - 'A' as u32 + 10) as usize)
    } else {
        None
    }
}

} // verus!
