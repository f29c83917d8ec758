//! Character styling: what a run looks like, and what one element changes.

use vstd::prelude::*;

verus! {

/// How a run of text is set.
#[derive(Debug, Clone, Copy, PartialEq, Eq, Structural)]
pub struct Style {
    pub bold: bool,
    pub italic: bool,
    pub strike: bool,
    pub code: bool,
}

impl Style {
    /// No styling at all.
    pub open spec fn none() -> Style {
        Style { bold: false, italic: false, strike: false, code: false }
    }

    /// No styling at all.
    pub fn plain() -> (r: Style)
        ensures
            r == Style::none(),
    {
        Style { bold: false, italic: false, strike: false, code: false }
    }

    /// This styling without what `base` already has.
    pub open spec fn beyond(self, base: Style) -> Style {
        Style {
            bold: self.bold && !base.bold,
            italic: self.italic && !base.italic,
            strike: self.strike && !base.strike,
            code: self.code && !base.code,
        }
    }

    /// This styling without what `base` already has.
    pub fn without(self, base: Style) -> (r: Style)
        ensures
            r == self.beyond(base),
    {
        Style {
            bold: self.bold && !base.bold,
            italic: self.italic && !base.italic,
            strike: self.strike && !base.strike,
            code: self.code && !base.code,
        }
    }
}

/// `over` where it says something, `under` where it does not.
pub open spec fn set_over(over: Option<bool>, under: Option<bool>) -> Option<bool> {
    if over is Some {
        over
    } else {
        under
    }
}

/// `over` where it says something, `under` where it does not.
pub fn override_with(over: Option<bool>, under: Option<bool>) -> (r: Option<bool>)
    ensures
        r == set_over(over, under),
{
    match over {
        Some(b) => Some(b),
        None => under,
    }
}

/// Whether a property is set and on.
pub open spec fn on(p: Option<bool>) -> bool {
    p == Some(true)
}

/// Whether a property is set and on.
pub fn is_on(p: Option<bool>) -> (r: bool)
    ensures
        r == on(p),
{
    match p {
        Some(b) => b,
        None => false,
    }
}

/// What one element changes about the styling it inherits; a property it says
/// nothing about is `None`.
#[derive(Debug, Clone, Copy)]
pub struct StyleDelta {
    pub bold: Option<bool>,
    pub italic: Option<bool>,
    pub strike: Option<bool>,
    pub code: Option<bool>,
}

impl StyleDelta {
    /// No change.
    pub open spec fn none() -> StyleDelta {
        StyleDelta { bold: None, italic: None, strike: None, code: None }
    }

    /// This change, then `over`.
    pub open spec fn then_over(self, over: StyleDelta) -> StyleDelta {
        StyleDelta {
            bold: set_over(over.bold, self.bold),
            italic: set_over(over.italic, self.italic),
            strike: set_over(over.strike, self.strike),
            code: set_over(over.code, self.code),
        }
    }

    /// This change, applied to plain text.
    pub open spec fn resolved(self) -> Style {
        Style {
            bold: on(self.bold),
            italic: on(self.italic),
            strike: on(self.strike),
            code: on(self.code),
        }
    }

    /// This change, then `over`.
    pub fn merge(self, over: StyleDelta) -> (r: StyleDelta)
        ensures
            r == self.then_over(over),
    {
        StyleDelta {
            bold: override_with(over.bold, self.bold),
            italic: override_with(over.italic, self.italic),
            strike: override_with(over.strike, self.strike),
            code: override_with(over.code, self.code),
        }
    }

    /// This change, applied to plain text.
    pub fn resolve(self) -> (r: Style)
        ensures
            r == self.resolved(),
    {
        Style {
            bold: is_on(self.bold),
            italic: is_on(self.italic),
            strike: is_on(self.strike),
            code: is_on(self.code),
        }
    }

    /// Whether nothing is changed.
    pub fn is_none(&self) -> (r: bool)
        ensures
            r == (*self == StyleDelta::none()),
    {
        self.bold.is_none() && self.italic.is_none() && self.strike.is_none() && self.code.is_none()
    }
}

impl Default for StyleDelta {
    fn default() -> (r: StyleDelta)
        ensures
            r == StyleDelta::none(),
    {
        StyleDelta { bold: None, italic: None, strike: None, code: None }
    }
}

} // verus!
