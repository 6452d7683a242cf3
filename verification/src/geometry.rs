//! Axes of a grid.

use vstd::prelude::*;

verus! {

/// A grid axis.
#[derive(Debug, Clone, Copy, PartialEq, Eq, Structural)]
pub enum Axis {
    X,
    Y,
}

/// The message that rejects an axis name.
pub open spec fn invalid_axis_message(value: Seq<char>) -> Seq<char> {
    "Invalid axis: '"@ + value + "'. Expected 'x' or 'y'"@
}

/// What reading an axis name gives: `x` and `y` in either case name the
/// axes (the only texts that lower-case to "x" and "y"); anything else is
/// rejected with a message that quotes it.
pub open spec fn axis_from_spec(value: Seq<char>) -> Result<Axis, Seq<char>> {
    if value == seq!['x'] || value == seq!['X'] {
        Ok(Axis::X)
    } else if value == seq!['y'] || value == seq!['Y'] {
        Ok(Axis::Y)
    } else {
        Err(invalid_axis_message(value))
    }
}

impl Axis {
    /// Reads an axis name, ignoring case.
    pub fn try_from(value: &str) -> (r: Result<Axis, String>)
        ensures
            match r {
                Ok(a) => axis_from_spec(value@) == Ok::<Axis, Seq<char>>(a),
                Err(m) => axis_from_spec(value@) == Err::<Axis, Seq<char>>(m@),
            },
    {
        let n = value.unicode_len();
        if n == 1 {
            let c = value.get_char(0);
            if c == 'x' || c == 'X' {
                assert(value@ =~= seq![c]);
                return Ok(Axis::X);
            }
            if c == 'y' || c == 'Y' {
                assert(value@ =~= seq![c]);
                return Ok(Axis::Y);
            }
            assert(value@ != seq!['x'] && value@ != seq!['X'] && value@ != seq!['y'] && value@
                != seq!['Y']) by {
                assert(value@[0] == c);
            }
        }
        let mut message = String::from_str("Invalid axis: '");
        message.append(value);
        message.append("'. Expected 'x' or 'y'");
        Err(message)
    }
}

} // verus!
