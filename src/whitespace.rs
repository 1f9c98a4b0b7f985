//! Per-token spacing intent and per-element indentation.
use vstd::prelude::*;

verus! {

/// The number of spaces one level of indentation takes unless a rule says
/// otherwise.
pub const DEFAULT_INDENT_UNIT: u32 = 4;

/// The spacing intent right before and right after one token, independent of
/// what its neighbours ask for.
#[derive(Clone, Copy, Debug)]
pub struct Whitespace {
    /// Spaces wanted before and after the token.
    pub locations: (u32, u32),
    /// Whether a line break is wanted before and after the token.
    pub new_line: (bool, bool),
}

impl Whitespace {
    /// A record with no spaces and no line breaks.
    pub fn new() -> (r: Whitespace)
        ensures
            r == Whitespace::unset(),
    {
        Whitespace { locations: (0, 0), new_line: (false, false) }
    }

    pub open spec fn unset() -> Whitespace {
        Whitespace { locations: (0, 0), new_line: (false, false) }
    }
}

/// How far an element is indented when a line break comes before it:
/// `depth` levels of `unit` spaces each.
#[derive(Clone, Copy, Debug, PartialEq, Eq, Structural)]
pub struct Indentation {
    pub depth: u32,
    pub unit: u32,
}

impl Indentation {
    /// No indentation, at the default unit.
    pub fn new() -> (r: Indentation)
        ensures
            r == Indentation::unset(),
    {
        Indentation { depth: 0, unit: DEFAULT_INDENT_UNIT }
    }

    pub open spec fn unset() -> Indentation {
        Indentation { depth: 0, unit: DEFAULT_INDENT_UNIT }
    }

    /// The number of spaces that follow a line break before this element.
    pub open spec fn width(self) -> nat {
        (self.depth * self.unit) as nat
    }
}

} // verus!
