//! The doublet: an indexed ordered pair of references.

use crate::text::{decimal, decimal_string};
use vstd::prelude::*;
use vstd::string::StringExecFns;

verus! {

/// A doublet: `source` and `target` are references to other doublets, `index`
/// is the doublet's own identity.
#[derive(Debug, Clone, Copy, PartialEq, Eq, Hash, Structural)]
pub struct Link {
    pub index: u32,
    pub source: u32,
    pub target: u32,
}

impl Link {
    /// The null doublet `(0, 0, 0)`, which stands for absence.
    pub open spec fn null() -> Link {
        Link { index: 0, source: 0, target: 0 }
    }

    /// Whether this is the null doublet.
    pub open spec fn spec_is_null(&self) -> bool {
        self.index == 0 && self.source == 0 && self.target == 0
    }

    /// Whether this doublet is a point: it refers to itself on both sides.
    pub open spec fn spec_is_full_point(&self) -> bool {
        self.index == self.source && self.source == self.target
    }

    /// The doublet as `(index source target)`, in decimal numbers.
    pub open spec fn spec_format(&self) -> Seq<char> {
        seq!['('] + decimal(self.index as nat) + seq![' '] + decimal(self.source as nat) + seq![' ']
            + decimal(self.target as nat) + seq![')']
    }

    /// The doublet with this index, source and target.
    pub fn new(index: u32, source: u32, target: u32) -> (link: Link)
        ensures
            link == (Link { index, source, target }),
    {
        Link { index, source, target }
    }

    /// Whether this is the null doublet `(0, 0, 0)`.
    #[verifier::when_used_as_spec(spec_is_null)]
    pub fn is_null(&self) -> (r: bool)
        ensures
            r == self.spec_is_null(),
    {
        self.index == 0 && self.source == 0 && self.target == 0
    }

    /// Whether this doublet is a point: index, source and target are equal.
    #[verifier::when_used_as_spec(spec_is_full_point)]
    pub fn is_full_point(&self) -> (r: bool)
        ensures
            r == self.spec_is_full_point(),
    {
        self.index == self.source && self.source == self.target
    }

    /// The doublet as `(index source target)`, in decimal numbers.
    pub fn format(&self) -> (text: String)
        ensures
            text@ == self.spec_format(),
    {
        let mut text = String::new();
        text.push('(');
        text.append(decimal_string(self.index).as_str());
        text.push(' ');
        text.append(decimal_string(self.source).as_str());
        text.push(' ');
        text.append(decimal_string(self.target).as_str());
        text.push(')');
        text
    }
}

impl Default for Link {
    fn default() -> (link: Link)
        ensures
            link == Link::null(),
    {
        Link { index: 0, source: 0, target: 0 }
    }
}

} // verus!
