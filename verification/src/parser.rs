//! The notation parser: from text to a list of nodes.
//!
//! Whitespace separates tokens and parentheses delimit composite nodes. A
//! token is a run of characters without whitespace and parentheses, or a
//! quoted segment. The first token of a composite is the node's identifier
//! when it ends in `:`; all other tokens and nested composites are children.

use crate::error::LinkError;
use crate::lino_link::{id_view, patterns, LinoLink, Pattern};
use crate::text::{is_space, string_of, to_chars};
use vstd::prelude::*;
use vstd::string::StringExecFns;

verus! {

/// How many characters of `s` lie at `pos` and behind it.
pub open spec fn left(s: Seq<char>, pos: int) -> nat {
    if pos <= s.len() {
        (s.len() - pos) as nat
    } else {
        0
    }
}

/// The characters that open and close a quoted segment.
pub open spec fn is_quote(c: char) -> bool {
    c == '"' || c == '\''
}

/// A token that is not quoted ends before whitespace and parentheses.
pub open spec fn ends_token(c: char) -> bool {
    is_space(c) || c == '(' || c == ')'
}

/// The first position from `pos` on that holds no whitespace.
pub open spec fn skip_whitespace(s: Seq<char>, pos: int) -> int
    decreases s.len() - pos,
{
    if 0 <= pos < s.len() && is_space(s[pos]) {
        skip_whitespace(s, pos + 1)
    } else {
        pos
    }
}

/// The position behind the unquoted token that starts at `pos`.
pub open spec fn token_end(s: Seq<char>, pos: int) -> int
    decreases s.len() - pos,
{
    if 0 <= pos < s.len() && !ends_token(s[pos]) {
        token_end(s, pos + 1)
    } else {
        pos
    }
}

/// The position of the quote that closes a quoted segment whose content
/// starts at `pos`. A backslash takes the character behind it along.
pub open spec fn quote_end(s: Seq<char>, pos: int, quote: char) -> Option<int>
    decreases s.len() - pos,
{
    if pos < 0 || pos >= s.len() {
        None
    } else if s[pos] == quote {
        Some(pos)
    } else if s[pos] == '\\' && pos + 1 < s.len() {
        quote_end(s, pos + 2, quote)
    } else {
        quote_end(s, pos + 1, quote)
    }
}

/// The token that follows the whitespace at `pos`, and the position behind
/// it: the content of a quoted segment, taken as it stands, or a run of
/// characters up to whitespace or a parenthesis.
pub open spec fn identifier_at(s: Seq<char>, pos: int) -> Option<(Seq<char>, int)> {
    let start = skip_whitespace(s, pos);
    if start < 0 || start >= s.len() {
        None
    } else if is_quote(s[start]) {
        match quote_end(s, start + 1, s[start]) {
            Some(end) => Some((s.subrange(start + 1, end), end + 1)),
            None => None,
        }
    } else {
        Some((s.subrange(start, token_end(s, start)), token_end(s, start)))
    }
}

/// `token` without the colons at its end.
pub open spec fn strip_colons(token: Seq<char>) -> Seq<char>
    decreases token.len(),
{
    if token.len() > 0 && token.last() == ':' {
        strip_colons(token.drop_last())
    } else {
        token
    }
}

/// Whether a token ends in a colon.
pub open spec fn ends_in_colon(token: Seq<char>) -> bool {
    token.len() > 0 && token.last() == ':'
}

/// The node of a composite with this identifier and these children: without
/// children it is a bare identifier, or the empty node.
pub open spec fn composite(id: Option<Seq<char>>, values: Seq<Pattern>) -> Pattern {
    if values.len() == 0 {
        Pattern { id, values: None }
    } else {
        Pattern { id, values: Some(values) }
    }
}

/// The composite that starts with `(` at `pos`, and the position behind its
/// `)`.
pub open spec fn link_at(s: Seq<char>, pos: int) -> Option<(Pattern, int)>
    decreases left(s, pos), 0nat,
{
    if 0 <= pos < s.len() && s[pos] == '(' {
        items_at(s, pos + 1, None, Seq::empty(), true)
    } else {
        None
    }
}

/// The rest of a composite from `pos` on, where `id` and `values` were read
/// already and `first` says that nothing was.
pub open spec fn items_at(
    s: Seq<char>,
    pos: int,
    id: Option<Seq<char>>,
    values: Seq<Pattern>,
    first: bool,
) -> Option<(Pattern, int)>
    decreases left(s, pos), 1nat,
{
    let start = skip_whitespace(s, pos);
    if start < pos || start < 0 || start >= s.len() {
        None
    } else if s[start] == ')' {
        Some((composite(id, values), start + 1))
    } else if s[start] == '(' {
        match link_at(s, start) {
            Some((child, next)) => if next > start {
                items_at(s, next, id, values.push(child), false)
            } else {
                None
            },
            None => None,
        }
    } else {
        match identifier_at(s, start) {
            Some((token, next)) => if next > start {
                if first && ends_in_colon(token) {
                    items_at(s, next, Some(strip_colons(token)), values, false)
                } else {
                    items_at(s, next, id, values.push(Pattern::leaf(token)), false)
                }
            } else {
                None
            },
            None => None,
        }
    }
}

/// The nodes from `pos` to the end of the text, behind those in `nodes`.
pub open spec fn nodes_at(s: Seq<char>, pos: int, nodes: Seq<Pattern>) -> Option<Seq<Pattern>>
    decreases left(s, pos),
{
    let start = skip_whitespace(s, pos);
    if start < pos || start < 0 {
        None
    } else if start >= s.len() {
        Some(nodes)
    } else if s[start] == ')' {
        None
    } else if s[start] == '(' {
        match link_at(s, start) {
            Some((node, next)) => if next > start {
                nodes_at(s, next, nodes.push(node))
            } else {
                None
            },
            None => None,
        }
    } else {
        match identifier_at(s, start) {
            Some((token, next)) => if next > start {
                nodes_at(s, next, nodes.push(Pattern::leaf(token)))
            } else {
                None
            },
            None => None,
        }
    }
}

/// The nodes that a text denotes, in the order of the text; `None` where a
/// parenthesis or a quote is not closed, or a `)` closes nothing.
pub open spec fn parse_text(s: Seq<char>) -> Option<Seq<Pattern>> {
    nodes_at(s, 0, Seq::empty())
}

/// Whitespace is passed over up to a character that is none, or to the end.
pub proof fn lemma_skip_whitespace(s: Seq<char>, pos: int)
    requires
        0 <= pos <= s.len(),
    ensures
        pos <= skip_whitespace(s, pos) <= s.len(),
        skip_whitespace(s, pos) < s.len() ==> !is_space(s[skip_whitespace(s, pos)]),
        skip_whitespace(s, skip_whitespace(s, pos)) == skip_whitespace(s, pos),
    decreases s.len() - pos,
{
    if pos < s.len() && is_space(s[pos]) {
        lemma_skip_whitespace(s, pos + 1);
    }
}

/// A token ends at or behind its start, within the text.
pub proof fn lemma_token_end(s: Seq<char>, pos: int)
    requires
        0 <= pos <= s.len(),
    ensures
        pos <= token_end(s, pos) <= s.len(),
        pos < s.len() && !ends_token(s[pos]) ==> pos < token_end(s, pos),
    decreases s.len() - pos,
{
    if pos < s.len() && !ends_token(s[pos]) {
        lemma_token_end(s, pos + 1);
    }
}

/// A closing quote stands at or behind the start of the content, within
/// the text.
pub proof fn lemma_quote_end(s: Seq<char>, pos: int, quote: char)
    requires
        0 <= pos,
    ensures
        match quote_end(s, pos, quote) {
            Some(end) => pos <= end < s.len(),
            None => true,
        },
    decreases s.len() - pos,
{
    if pos < s.len() && s[pos] != quote {
        if s[pos] == '\\' && pos + 1 < s.len() {
            lemma_quote_end(s, pos + 2, quote);
        } else {
            lemma_quote_end(s, pos + 1, quote);
        }
    }
}

/// A token that starts at a character which is neither whitespace nor a
/// parenthesis is not empty, unless it is quoted.
pub proof fn lemma_identifier_at(s: Seq<char>, pos: int)
    requires
        0 <= pos < s.len(),
        !ends_token(s[pos]),
    ensures
        match identifier_at(s, pos) {
            Some((token, next)) => pos < next <= s.len(),
            None => true,
        },
{
    lemma_skip_whitespace(s, pos);
    if is_quote(s[pos]) {
        lemma_quote_end(s, pos + 1, s[pos]);
    } else {
        lemma_token_end(s, pos);
    }
}

/// A composite ends behind the place where it starts, within the text.
pub proof fn lemma_link_at(s: Seq<char>, pos: int)
    requires
        0 <= pos,
    ensures
        match link_at(s, pos) {
            Some((node, next)) => pos < next <= s.len(),
            None => true,
        },
    decreases left(s, pos), 0nat,
{
    if pos < s.len() && s[pos] == '(' {
        lemma_items_at(s, pos + 1, None, Seq::empty(), true);
    }
}

/// The rest of a composite ends behind the place where it starts, within
/// the text.
pub proof fn lemma_items_at(
    s: Seq<char>,
    pos: int,
    id: Option<Seq<char>>,
    values: Seq<Pattern>,
    first: bool,
)
    requires
        0 <= pos,
    ensures
        match items_at(s, pos, id, values, first) {
            Some((node, next)) => pos < next <= s.len(),
            None => true,
        },
    decreases left(s, pos), 1nat,
{
    let start = skip_whitespace(s, pos);
    if start < pos || start < 0 || start >= s.len() || s[start] == ')' {
        // The composite ends here, or the text does.
    } else if s[start] == '(' {
        match link_at(s, start) {
            Some((child, next)) => {
                if next > start {
                    lemma_items_at(s, next, id, values.push(child), false);
                }
            },
            None => {},
        }
    } else {
        match identifier_at(s, start) {
            Some((token, next)) => {
                if next > start {
                    if first && ends_in_colon(token) {
                        lemma_items_at(s, next, Some(strip_colons(token)), values, false);
                    } else {
                        lemma_items_at(s, next, id, values.push(Pattern::leaf(token)), false);
                    }
                }
            },
            None => {},
        }
    }
}

/// A parser of the notation.
pub struct Parser;

impl Parser {
    /// A parser.
    pub fn new() -> (parser: Parser) {
        Parser
    }

    /// Reads a text as a list of nodes, in the order of the text. A text in
    /// which a parenthesis or a quote is not closed, or in which a `)`
    /// closes nothing, is refused.
    pub fn parse(&self, query: &str) -> (r: Result<Vec<LinoLink>, LinkError>)
        ensures
            match r {
                Ok(nodes) => parse_text(query@) == Some(patterns(nodes@)),
                Err(e) => parse_text(query@) is None && e is ParseError,
            },
    {
        let chars = to_chars(query);
        let mut result: Vec<LinoLink> = Vec::new();
        let mut pos: usize = 0;
        assert(patterns(result@) =~= Seq::<Pattern>::empty());
        loop
            invariant
                chars@ == query@,
                pos <= chars.len(),
                nodes_at(chars@, pos as int, patterns(result@)) == parse_text(query@),
            decreases chars.len() - pos,
        {
            let ghost from = pos as int;
            let ghost before = patterns(result@);
            self.skip_whitespace(&chars, &mut pos);
            proof {
                lemma_skip_whitespace(chars@, from);
            }
            if pos >= chars.len() {
                return Ok(result);
            }
            if chars[pos] == ')' {
                return Err(LinkError::ParseError(String::from_str("Unexpected ')'")));
            }
            let ghost start = pos as int;
            let node = if chars[pos] == '(' {
                proof {
                    lemma_link_at(chars@, start);
                }
                match self.parse_link(&chars, &mut pos) {
                    Ok(node) => node,
                    Err(e) => {
                        return Err(e);
                    },
                }
            } else {
                proof {
                    lemma_identifier_at(chars@, start);
                }
                match self.parse_identifier(&chars, &mut pos) {
                    Ok(token) => LinoLink::new(Some(token)),
                    Err(e) => {
                        return Err(e);
                    },
                }
            };
            result.push(node);
            assert(patterns(result@) =~= before.push(node@));
        }
    }

    /// Reads the composite that starts with `(` at `pos` and moves `pos`
    /// behind its `)`.
    pub fn parse_link(&self, chars: &Vec<char>, pos: &mut usize) -> (r: Result<LinoLink, LinkError>)
        requires
            *old(pos) <= chars.len(),
        ensures
            match r {
                Ok(node) => link_at(chars@, *old(pos) as int) == Some((node@, *final(pos) as int))
                    && *old(pos) < *final(pos) <= chars.len(),
                Err(e) => link_at(chars@, *old(pos) as int) is None && e is ParseError,
            },
        decreases chars.len() - *old(pos),
    {
        if *pos >= chars.len() || chars[*pos] != '(' {
            return Err(LinkError::ParseError(String::from_str("Expected '(' at start of link")));
        }
        let ghost opening = *pos as int;
        *pos = *pos + 1;
        let mut id: Option<String> = None;
        let mut values: Vec<LinoLink> = Vec::new();
        let mut first = true;
        assert(patterns(values@) =~= Seq::<Pattern>::empty());
        loop
            invariant
                opening < *pos <= chars.len(),
                opening == *old(pos),
                items_at(chars@, *pos as int, id_view(id), patterns(values@), first) == link_at(
                    chars@,
                    opening,
                ),
            decreases chars.len() - *pos,
        {
            let ghost from = *pos as int;
            let ghost before = patterns(values@);
            self.skip_whitespace(chars, pos);
            proof {
                lemma_skip_whitespace(chars@, from);
            }
            if *pos >= chars.len() {
                return Err(LinkError::ParseError(String::from_str("Expected ')' at end of link")));
            }
            let ghost start = *pos as int;
            if chars[*pos] == ')' {
                *pos = *pos + 1;
                let node = if values.len() == 0 {
                    LinoLink::new(id)
                } else {
                    LinoLink::with_values(id, values)
                };
                return Ok(node);
            }
            if chars[*pos] == '(' {
                proof {
                    lemma_link_at(chars@, start);
                }
                match self.parse_link(chars, pos) {
                    Ok(child) => {
                        values.push(child);
                        assert(patterns(values@) =~= before.push(child@));
                    },
                    Err(e) => {
                        return Err(e);
                    },
                }
            } else {
                proof {
                    lemma_identifier_at(chars@, start);
                }
                match self.parse_identifier(chars, pos) {
                    Ok(token) => {
                        if first && ends_with_colon(&token) {
                            id = Some(without_colons(&token));
                        } else {
                            let ghost text = token@;
                            let leaf = LinoLink::new(Some(token));
                            values.push(leaf);
                            assert(patterns(values@) =~= before.push(Pattern::leaf(text)));
                        }
                    },
                    Err(e) => {
                        return Err(e);
                    },
                }
            }
            first = false;
        }
    }

    /// Reads the token that follows the whitespace at `pos` and moves `pos`
    /// behind it.
    pub fn parse_identifier(&self, chars: &Vec<char>, pos: &mut usize) -> (r: Result<
        String,
        LinkError,
    >)
        requires
            *old(pos) <= chars.len(),
        ensures
            match r {
                Ok(token) => identifier_at(chars@, *old(pos) as int) == Some(
                    (token@, *final(pos) as int),
                ) && *old(pos) <= *final(pos) <= chars.len(),
                Err(e) => identifier_at(chars@, *old(pos) as int) is None && e is ParseError,
            },
    {
        let ghost from = *pos as int;
        self.skip_whitespace(chars, pos);
        proof {
            lemma_skip_whitespace(chars@, from);
        }
        if *pos >= chars.len() {
            return Err(LinkError::ParseError(String::from_str("Unexpected end of input")));
        }
        let start = *pos;
        if chars[*pos] == '"' || chars[*pos] == '\'' {
            let quote = chars[*pos];
            *pos = *pos + 1;
            while *pos < chars.len() && chars[*pos] != quote
                invariant
                    start < *pos <= chars.len(),
                    quote_end(chars@, *pos as int, quote) == quote_end(
                        chars@,
                        start as int + 1,
                        quote,
                    ),
                decreases chars.len() - *pos,
            {
                if chars[*pos] == '\\' && *pos + 1 < chars.len() {
                    *pos = *pos + 2;
                } else {
                    *pos = *pos + 1;
                }
            }
            if *pos >= chars.len() {
                return Err(LinkError::ParseError(String::from_str("Unterminated quoted identifier")));
            }
            let content = string_of(chars, start + 1, *pos);
            *pos = *pos + 1;
            return Ok(content);
        }
        while *pos < chars.len() && !(chars[*pos].is_whitespace() || chars[*pos] == '(' || chars[*pos]
            == ')')
            invariant
                start <= *pos <= chars.len(),
                token_end(chars@, *pos as int) == token_end(chars@, start as int),
            decreases chars.len() - *pos,
        {
            *pos = *pos + 1;
        }
        Ok(string_of(chars, start, *pos))
    }

    /// Moves `pos` to the first position from it on that holds no whitespace.
    pub fn skip_whitespace(&self, chars: &Vec<char>, pos: &mut usize)
        requires
            *old(pos) <= chars.len(),
        ensures
            *final(pos) == skip_whitespace(chars@, *old(pos) as int),
            *old(pos) <= *final(pos) <= chars.len(),
    {
        while *pos < chars.len() && chars[*pos].is_whitespace()
            invariant
                *old(pos) <= *pos <= chars.len(),
                skip_whitespace(chars@, *pos as int) == skip_whitespace(chars@, *old(pos) as int),
            decreases chars.len() - *pos,
        {
            *pos = *pos + 1;
        }
    }
}

impl Default for Parser {
    fn default() -> (parser: Parser) {
        Parser
    }
}

/// Whether `token` ends in a colon.
fn ends_with_colon(token: &String) -> (r: bool)
    ensures
        r == ends_in_colon(token@),
{
    let chars = to_chars(token.as_str());
    chars.len() > 0 && chars[chars.len() - 1] == ':'
}

/// `token` without the colons at its end.
fn without_colons(token: &String) -> (r: String)
    ensures
        r@ == strip_colons(token@),
{
    let chars = to_chars(token.as_str());
    let mut end: usize = chars.len();
    assert(chars@.take(chars.len() as int) =~= chars@);
    while end > 0 && chars[end - 1] == ':'
        invariant
            end <= chars.len(),
            strip_colons(chars@.take(end as int)) == strip_colons(chars@),
        decreases end,
    {
        assert(chars@.take(end as int).drop_last() =~= chars@.take(end - 1));
        end -= 1;
    }
    string_of(&chars, 0, end)
}

} // verus!
