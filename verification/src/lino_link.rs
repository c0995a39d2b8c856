//! The nodes of parsed notation.

use crate::text::{is_number, parse_number};
use vstd::prelude::*;
use vstd::string::StrSliceExecFns;

verus! {

/// A node of parsed notation: a bare identifier, or a composite with an
/// optional identifier and child nodes.
#[derive(Debug, PartialEq, Eq)]
pub struct LinoLink {
    /// A number, a variable, a wildcard or a name.
    pub id: Option<String>,
    /// The child nodes of a composite.
    pub values: Option<Vec<LinoLink>>,
}

/// What a node holds, as plain values.
pub ghost struct Pattern {
    pub id: Option<Seq<char>>,
    pub values: Option<Seq<Pattern>>,
}

impl Pattern {
    /// A node with the identifier `id` and no children.
    pub open spec fn leaf(id: Seq<char>) -> Pattern {
        Pattern { id: Some(id), values: None }
    }

    /// The node without identifier and children.
    pub open spec fn empty() -> Pattern {
        Pattern { id: None, values: None }
    }

    /// The number of children.
    pub open spec fn values_count(self) -> nat {
        match self.values {
            Some(values) => values.len(),
            None => 0,
        }
    }

    /// Whether the node has children.
    pub open spec fn has_values(self) -> bool {
        self.values_count() > 0
    }

    /// Whether the node has neither an identifier nor children.
    pub open spec fn is_empty(self) -> bool {
        self.id is None && self.values_count() == 0
    }

    /// Whether the identifier is a variable.
    pub open spec fn is_variable(self) -> bool {
        self.id is Some && is_variable_name(self.id->Some_0)
    }

    /// Whether the identifier is the wildcard `*`.
    pub open spec fn is_wildcard(self) -> bool {
        self.id is Some && self.id->Some_0 == seq!['*']
    }

    /// Whether the identifier is a number.
    pub open spec fn is_numeric(self) -> bool {
        self.id is Some && is_number(self.id->Some_0)
    }

    /// The child at position `i`.
    pub open spec fn child(self, i: int) -> Pattern {
        self.values->Some_0[i]
    }
}

/// A variable starts with `$`.
pub open spec fn is_variable_name(id: Seq<char>) -> bool {
    id.len() > 0 && id[0] == '$'
}

/// The characters of an identifier, where there is one.
pub open spec fn id_view(id: Option<String>) -> Option<Seq<char>> {
    match id {
        Some(id) => Some(id@),
        None => None,
    }
}

/// What each node of a list holds.
pub open spec fn patterns(nodes: Seq<LinoLink>) -> Seq<Pattern> {
    Seq::new(nodes.len(), |i: int| nodes[i]@)
}

/// What a node holds.
pub open spec fn pattern_of(node: LinoLink) -> Pattern
    decreases node,
{
    Pattern {
        id: match node.id {
            Some(id) => Some(id@),
            None => None,
        },
        values: match node.values {
            Some(values) => Some(
                Seq::new(
                    values@.len(),
                    |i: int|
                        if 0 <= i < values@.len() {
                            pattern_of(values@[i])
                        } else {
                            Pattern::empty()
                        },
                ),
            ),
            None => None,
        },
    }
}

impl View for LinoLink {
    type V = Pattern;

    open spec fn view(&self) -> Pattern {
        pattern_of(*self)
    }
}

impl LinoLink {
    /// What the children of this node hold.
    pub proof fn lemma_view_values(&self)
        ensures
            self@.id == id_view(self.id),
            self@.values == match self.values {
                Some(values) => Some(patterns(values@)),
                None => None,
            },
    {
        match self.values {
            Some(values) => {
                assert forall|i: int| 0 <= i < values@.len() implies self@.values->Some_0[i]
                    == patterns(values@)[i] by {}
            },
            None => {},
        }
    }

    /// A node with an identifier and no children.
    pub fn new(id: Option<String>) -> (node: LinoLink)
        ensures
            node.id == id,
            node.values is None,
            node@ == (Pattern { id: id_view(id), values: None }),
    {
        LinoLink { id, values: None }
    }

    /// A node with an identifier and child nodes.
    pub fn with_values(id: Option<String>, values: Vec<LinoLink>) -> (node: LinoLink)
        ensures
            node.id == id,
            node.values == Some(values),
            node@ == (Pattern { id: id_view(id), values: Some(patterns(values@)) }),
    {
        let node = LinoLink { id, values: Some(values) };
        proof {
            node.lemma_view_values();
        }
        node
    }

    /// Whether this node has neither an identifier nor children.
    pub fn is_empty(&self) -> (r: bool)
        ensures
            r == self@.is_empty(),
    {
        proof {
            self.lemma_view_values();
        }
        self.id.is_none() && self.values_count() == 0
    }

    /// Whether this node has children.
    pub fn has_values(&self) -> (r: bool)
        ensures
            r == self@.has_values(),
    {
        self.values_count() > 0
    }

    /// The number of children.
    pub fn values_count(&self) -> (n: usize)
        ensures
            n == self@.values_count(),
    {
        proof {
            self.lemma_view_values();
        }
        match &self.values {
            Some(values) => values.len(),
            None => 0,
        }
    }

    /// Whether the identifier is a variable: it starts with `$`.
    pub fn is_variable(&self) -> (r: bool)
        ensures
            r == self@.is_variable(),
    {
        proof {
            self.lemma_view_values();
        }
        match &self.id {
            Some(id) => starts_with_dollar(id.as_str()),
            None => false,
        }
    }

    /// Whether the identifier is the wildcard `*`.
    pub fn is_wildcard(&self) -> (r: bool)
        ensures
            r == self@.is_wildcard(),
    {
        proof {
            self.lemma_view_values();
        }
        match &self.id {
            Some(id) => is_star(id.as_str()),
            None => false,
        }
    }

    /// Whether the identifier is a number.
    pub fn is_numeric(&self) -> (r: bool)
        ensures
            r == self@.is_numeric(),
    {
        proof {
            self.lemma_view_values();
        }
        match &self.id {
            Some(id) => parse_number(id.as_str()).is_some(),
            None => false,
        }
    }
}

/// Whether `id` starts with `$`.
pub fn starts_with_dollar(id: &str) -> (r: bool)
    ensures
        r == is_variable_name(id@),
{
    id.unicode_len() > 0 && id.get_char(0) == '$'
}

/// Whether `id` is the wildcard `*`.
pub fn is_star(id: &str) -> (r: bool)
    ensures
        r == (id@ == seq!['*']),
{
    let r = id.unicode_len() == 1 && id.get_char(0) == '*';
    proof {
        if r {
            assert(id@ =~= seq!['*']);
        }
    }
    r
}

impl Default for LinoLink {
    fn default() -> (node: LinoLink)
        ensures
            node@ == Pattern::empty(),
            node.id is None,
            node.values is None,
    {
        LinoLink { id: None, values: None }
    }
}

impl Clone for LinoLink {
    fn clone(&self) -> (copy: LinoLink)
        ensures
            copy@ == self@,
        decreases self,
    {
        let id = match &self.id {
            Some(id) => Some(id.clone()),
            None => None,
        };
        let values = match &self.values {
            Some(values) => {
                let mut copies: Vec<LinoLink> = Vec::new();
                let mut i: usize = 0;
                while i < values.len()
                    invariant
                        i <= values.len(),
                        self.values == Some(*values),
                        copies@.len() == i,
                        forall|k: int| 0 <= k < i ==> copies@[k]@ == values@[k]@,
                    decreases values.len() - i,
                {
                    assert(self.values->Some_0@[i as int] == values@[i as int]);
                    let child = values[i].clone();
                    copies.push(child);
                    i += 1;
                }
                Some(copies)
            },
            None => None,
        };
        let copy = LinoLink { id, values };
        proof {
            self.lemma_view_values();
            copy.lemma_view_values();
            if self.values is Some {
                assert(patterns(self.values->Some_0@) =~= patterns(copy.values->Some_0@));
            }
        }
        copy
    }
}

} // verus!
