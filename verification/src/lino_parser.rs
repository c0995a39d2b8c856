//! A reader of single links in numeric notation: a reference is a number, a
//! link is `(source target)` or `(id: source target)`, and each side may be a
//! link again.

use crate::text::{
    decimal, decimal_string_u64, is_blank, is_unsigned, kept_from, lemma_kept_from, lemma_kept_to,
    parse_unsigned, same_text, slice_of, string_of, to_chars, trim_blanks, trimmed, unsigned_value,
    word_views,
};
use vstd::prelude::*;
use vstd::string::StringExecFns;

verus! {

/// A reference, or a link of up to two sides.
#[derive(Debug, PartialEq)]
pub enum LiNo {
    Link { id: Option<u64>, source: Option<Box<LiNo>>, target: Option<Box<LiNo>> },
    Ref(u64),
}

/// The notation of a reference or link.
pub open spec fn notation(value: LiNo) -> Seq<char>
    decreases value,
{
    match value {
        LiNo::Ref(number) => decimal(number as nat),
        LiNo::Link { id, source, target } => seq!['('] + (match id {
            Some(id) => decimal(id as nat) + seq![':', ' '],
            None => Seq::empty(),
        }) + (match source {
            Some(source) => notation(*source),
            None => Seq::empty(),
        }) + (if source is Some && target is Some {
            seq![' ']
        } else {
            Seq::empty()
        }) + (match target {
            Some(target) => notation(*target),
            None => Seq::empty(),
        }) + seq![')'],
    }
}

impl LiNo {
    /// Whether this is a reference.
    pub fn is_ref(&self) -> (r: bool)
        ensures
            r == (*self is Ref),
    {
        match self {
            LiNo::Ref(_) => true,
            _ => false,
        }
    }

    /// Whether this is a link.
    pub fn is_link(&self) -> (r: bool)
        ensures
            r == (*self is Link),
    {
        match self {
            LiNo::Link { .. } => true,
            _ => false,
        }
    }

    /// The number of a reference.
    pub fn get_ref_value(&self) -> (r: Option<u64>)
        ensures
            r == match *self {
                LiNo::Ref(value) => Some(value),
                _ => None::<u64>,
            },
    {
        match self {
            LiNo::Ref(value) => Some(*value),
            _ => None,
        }
    }

    /// The notation of this reference or link: a reference as its number, a
    /// link as `(id: source target)` without the parts that it lacks.
    pub fn to_text(&self) -> (text: String)
        ensures
            text@ == notation(*self),
        decreases self,
    {
        match self {
            LiNo::Ref(value) => decimal_string_u64(*value),
            LiNo::Link { id, source, target } => {
                let mut text = String::new();
                text.push('(');
                match id {
                    Some(id) => {
                        text.append(decimal_string_u64(*id).as_str());
                        text.push(':');
                        text.push(' ');
                    },
                    None => {},
                }
                match source {
                    Some(source) => {
                        text.append(source.to_text().as_str());
                    },
                    None => {},
                }
                if source.is_some() && target.is_some() {
                    text.push(' ');
                }
                match target {
                    Some(target) => {
                        text.append(target.to_text().as_str());
                    },
                    None => {},
                }
                text.push(')');
                text
            },
        }
    }
}

/// `s` without whitespace at both ends.
pub open spec fn strip(s: Seq<char>) -> Seq<char> {
    trimmed(s, is_blank())
}

/// Where the splitting of a side into tokens stands: the tokens that are
/// complete, the characters of the token that is being read, the depth of
/// parentheses, and whether a token is being read.
pub ghost struct Scan {
    pub tokens: Seq<Seq<char>>,
    pub current: Seq<char>,
    pub depth: int,
    pub in_token: bool,
}

/// The characters that separate tokens: blank, tab and line break.
pub open spec fn is_separator(c: char) -> bool {
    c == ' ' || c == '\t' || c == '\n'
}

/// The state after one more character. A token ends with the `)` that brings
/// the depth back to 0, and at a separator outside parentheses.
pub open spec fn scan_step(state: Scan, c: char) -> Scan {
    if c == '(' {
        Scan { current: state.current.push(c), depth: state.depth + 1, in_token: true, ..state }
    } else if c == ')' {
        if state.depth - 1 == 0 && state.in_token {
            Scan {
                tokens: state.tokens.push(strip(state.current.push(c))),
                current: Seq::empty(),
                depth: 0,
                in_token: false,
            }
        } else {
            Scan { current: state.current.push(c), depth: state.depth - 1, ..state }
        }
    } else if is_separator(c) {
        if state.depth > 0 {
            Scan { current: state.current.push(c), ..state }
        } else if state.in_token && strip(state.current).len() > 0 {
            Scan {
                tokens: state.tokens.push(strip(state.current)),
                current: Seq::empty(),
                in_token: false,
                ..state
            }
        } else {
            state
        }
    } else {
        Scan { current: state.current.push(c), in_token: true, ..state }
    }
}

/// The state after the first `n` characters.
pub open spec fn scan(input: Seq<char>, n: int) -> Scan
    decreases n,
{
    if n <= 0 || n > input.len() {
        Scan { tokens: Seq::empty(), current: Seq::empty(), depth: 0, in_token: false }
    } else {
        scan_step(scan(input, n - 1), input[n - 1])
    }
}

/// The tokens of a side: numbers, and links in their parentheses.
pub open spec fn tokenize(input: Seq<char>) -> Seq<Seq<char>> {
    let end = scan(input, input.len() as int);
    if strip(end.current).len() > 0 {
        end.tokens.push(strip(end.current))
    } else {
        end.tokens
    }
}

/// Stripping whitespace makes a text no longer.
pub proof fn lemma_strip_len(s: Seq<char>)
    ensures
        strip(s).len() <= s.len(),
{
    lemma_kept_from(s, is_blank(), 0);
    lemma_kept_to(s, is_blank(), kept_from(s, is_blank(), 0), s.len() as int);
}

/// No token is longer than what was read.
pub proof fn lemma_scan_len(input: Seq<char>, n: int)
    requires
        0 <= n <= input.len(),
    ensures
        scan(input, n).current.len() <= n,
        -n <= scan(input, n).depth <= n,
        forall|i: int|
            0 <= i < scan(input, n).tokens.len() ==> (#[trigger] scan(input, n).tokens[i]).len()
                <= n,
    decreases n,
{
    if n > 0 {
        lemma_scan_len(input, n - 1);
        let before = scan(input, n - 1);
        lemma_strip_len(before.current);
        lemma_strip_len(before.current.push(input[n - 1]));
    }
}

/// No token is longer than the text that it was taken from.
pub proof fn lemma_tokenize_len(input: Seq<char>)
    ensures
        forall|i: int|
            0 <= i < tokenize(input).len() ==> (#[trigger] tokenize(input)[i]).len() <= input.len(),
{
    lemma_scan_len(input, input.len() as int);
    lemma_strip_len(scan(input, input.len() as int).current);
}

/// The position of the first `:` from `i` on, or the length where there is
/// none.
pub open spec fn first_colon(s: Seq<char>, i: int) -> int
    decreases s.len() - i,
{
    if 0 <= i < s.len() && s[i] != ':' {
        first_colon(s, i + 1)
    } else {
        i
    }
}

/// The first colon stands at or behind `i`, within the text.
pub proof fn lemma_first_colon(s: Seq<char>, i: int)
    requires
        0 <= i <= s.len(),
    ensures
        i <= first_colon(s, i) <= s.len(),
    decreases s.len() - i,
{
    if i < s.len() && s[i] != ':' {
        lemma_first_colon(s, i + 1);
    }
}

/// What stands between the parentheses of a link.
pub open spec fn inner(input: Seq<char>) -> Seq<char> {
    if input.len() >= 2 {
        strip(input.subrange(1, input.len() - 1))
    } else {
        Seq::empty()
    }
}

/// Whether a text starts with `(` and ends with `)`.
pub open spec fn in_parentheses(text: Seq<char>) -> bool {
    text.len() > 0 && text[0] == '(' && text.last() == ')'
}

/// A token that stands for no number: a variable or the wildcard.
pub open spec fn is_placeholder(text: Seq<char>) -> bool {
    (text.len() > 0 && text[0] == '$') || text == seq!['*']
}

/// The sides of a link: none, one or two tokens.
pub type Sides = (Option<Box<LiNo>>, Option<Box<LiNo>>);

/// The link that a text in parentheses denotes. A `:` anywhere in it makes
/// what stands before the first `:` the identifier.
pub open spec fn link_of(input: Seq<char>) -> Result<LiNo, Seq<char>>
    decreases input.len(), 0nat,
{
    let content = inner(input);
    let at = first_colon(content, 0);
    if content.len() == 0 {
        Ok(LiNo::Link { id: None, source: None, target: None })
    } else if at < content.len() {
        let id = strip(content.take(at));
        if is_unsigned(id) {
            proof {
                lemma_strip_len(input.subrange(1, input.len() - 1));
                lemma_strip_len(content.skip(at + 1));
                lemma_first_colon(content, 0);
            }
            match sides_of(strip(content.skip(at + 1))) {
                Ok(sides) => Ok(
                    LiNo::Link { id: Some(unsigned_value(id)), source: sides.0, target: sides.1 },
                ),
                Err(e) => Err(e),
            }
        } else {
            Err("Invalid ID"@)
        }
    } else {
        proof {
            lemma_strip_len(input.subrange(1, input.len() - 1));
        }
        match sides_of(content) {
            Ok(sides) => Ok(LiNo::Link { id: None, source: sides.0, target: sides.1 }),
            Err(e) => Err(e),
        }
    }
}

/// The sides that the content of a link denotes. Content that starts with a
/// variable, and the wildcards `*` and `* *`, denote no sides.
pub open spec fn sides_of(content: Seq<char>) -> Result<Sides, Seq<char>>
    decreases content.len(), 2nat,
{
    let tokens = tokenize(content);
    if content.len() == 0 || content[0] == '$' || content == "*"@ || content == "* *"@ {
        Ok((None, None))
    } else if tokens.len() == 0 {
        Ok((None, None))
    } else if tokens.len() == 1 {
        proof {
            lemma_tokenize_len(content);
        }
        match token_of(tokens[0]) {
            Ok(source) => Ok((Some(Box::new(source)), None)),
            Err(e) => Err(e),
        }
    } else if tokens.len() == 2 {
        proof {
            lemma_tokenize_len(content);
        }
        match token_of(tokens[0]) {
            Ok(source) => match token_of(tokens[1]) {
                Ok(target) => Ok((Some(Box::new(source)), Some(Box::new(target)))),
                Err(e) => Err(e),
            },
            Err(e) => Err(e),
        }
    } else {
        Err("Too many elements in link"@)
    }
}

/// What one token denotes: a placeholder is the reference 0, a number is a
/// reference, and a text in parentheses is a link.
pub open spec fn token_of(token: Seq<char>) -> Result<LiNo, Seq<char>>
    decreases token.len(), 1nat,
{
    let text = strip(token);
    if is_placeholder(text) {
        Ok(LiNo::Ref(0))
    } else if is_unsigned(text) {
        Ok(LiNo::Ref(unsigned_value(text)))
    } else if in_parentheses(text) {
        proof {
            lemma_strip_len(token);
        }
        link_of(text)
    } else {
        Err("Invalid token: "@ + text)
    }
}

/// What a text denotes: a number is a reference, a text in parentheses a
/// link; anything else is refused.
pub open spec fn parse_input(input: Seq<char>) -> Result<LiNo, Seq<char>> {
    let text = strip(input);
    if text.len() == 0 {
        Err("Empty input"@)
    } else if is_unsigned(text) {
        Ok(LiNo::Ref(unsigned_value(text)))
    } else if in_parentheses(text) {
        link_of(text)
    } else {
        Err("Invalid LiNo format: "@ + text)
    }
}

/// Whether the result of a step is what its description says.
pub open spec fn matches<T>(r: Result<T, String>, expected: Result<T, Seq<char>>) -> bool {
    match expected {
        Ok(value) => r == Ok::<T, String>(value),
        Err(message) => r is Err && r->Err_0@ == message,
    }
}

/// Whether `text` stands in parentheses.
fn is_in_parentheses(text: &Vec<char>) -> (r: bool)
    ensures
        r == in_parentheses(text@),
{
    text.len() > 0 && text[0] == '(' && text[text.len() - 1] == ')'
}

/// Whether `text` is a variable or the wildcard.
fn is_a_placeholder(text: &Vec<char>) -> (r: bool)
    ensures
        r == is_placeholder(text@),
{
    if text.len() > 0 && text[0] == '$' {
        return true;
    }
    let r = text.len() == 1 && text[0] == '*';
    proof {
        if r {
            assert(text@ =~= seq!['*']);
        }
    }
    r
}

/// A message with a text behind it.
fn message_with(message: &str, text: &Vec<char>) -> (r: String)
    ensures
        r@ == message@ + text@,
{
    let tail = string_of(text, 0, text.len());
    String::from_str(message).concat(tail.as_str())
}

/// A reader of the numeric notation.
pub struct LiNoParser;

impl LiNoParser {
    /// A reader.
    pub fn new() -> (parser: LiNoParser) {
        LiNoParser
    }

    /// Reads a reference or a link.
    pub fn parse(&self, input: &str) -> (r: Result<LiNo, String>)
        ensures
            matches(r, parse_input(input@)),
    {
        let chars = to_chars(input);
        let text = trim_blanks(&chars);
        if text.len() == 0 {
            return Err(String::from_str("Empty input"));
        }
        match parse_unsigned(&text) {
            Some(number) => {
                return Ok(LiNo::Ref(number));
            },
            None => {},
        }
        if is_in_parentheses(&text) {
            return self.parse_link(&text);
        }
        Err(message_with("Invalid LiNo format: ", &text))
    }

    /// Reads a link from a text in parentheses.
    fn parse_link(&self, input: &Vec<char>) -> (r: Result<LiNo, String>)
        requires
            in_parentheses(input@),
        ensures
            matches(r, link_of(input@)),
        decreases input@.len(), 0nat,
    {
        let between = slice_of(input, 1, input.len() - 1);
        let content = trim_blanks(&between);
        proof {
            lemma_strip_len(between@);
        }
        if content.len() == 0 {
            return Ok(LiNo::Link { id: None, source: None, target: None });
        }
        let mut at: usize = 0;
        while at < content.len() && content[at] != ':'
            invariant
                at <= content.len(),
                first_colon(content@, at as int) == first_colon(content@, 0),
            decreases content.len() - at,
        {
            at += 1;
        }
        if at < content.len() {
            self.parse_link_with_id(&content, at)
        } else {
            self.parse_link_without_id(&content)
        }
    }

    /// Reads a link whose content has a `:` at position `at`: the identifier
    /// stands before it, the sides behind it.
    fn parse_link_with_id(&self, content: &Vec<char>, at: usize) -> (r: Result<LiNo, String>)
        requires
            at < content.len(),
            at == first_colon(content@, 0),
        ensures
            matches(
                r,
                if is_unsigned(strip(content@.take(at as int))) {
                    match sides_of(strip(content@.skip(at + 1))) {
                        Ok(sides) => Ok::<LiNo, Seq<char>>(
                            LiNo::Link {
                                id: Some(unsigned_value(strip(content@.take(at as int)))),
                                source: sides.0,
                                target: sides.1,
                            },
                        ),
                        Err(e) => Err(e),
                    }
                } else {
                    Err("Invalid ID"@)
                },
            ),
        decreases content@.len(), 3nat,
    {
        let before = slice_of(content, 0, at);
        let id = match parse_unsigned(&trim_blanks(&before)) {
            Some(id) => id,
            None => {
                return Err(String::from_str("Invalid ID"));
            },
        };
        let behind = slice_of(content, at + 1, content.len());
        let rest = trim_blanks(&behind);
        proof {
            lemma_strip_len(behind@);
        }
        match self.parse_source_target(&rest) {
            Ok(sides) => Ok(LiNo::Link { id: Some(id), source: sides.0, target: sides.1 }),
            Err(e) => Err(e),
        }
    }

    /// Reads a link without identifier from its content.
    fn parse_link_without_id(&self, content: &Vec<char>) -> (r: Result<LiNo, String>)
        ensures
            matches(
                r,
                match sides_of(content@) {
                    Ok(sides) => Ok::<LiNo, Seq<char>>(
                        LiNo::Link { id: None, source: sides.0, target: sides.1 },
                    ),
                    Err(e) => Err(e),
                },
            ),
        decreases content@.len(), 3nat,
    {
        match self.parse_source_target(content) {
            Ok(sides) => Ok(LiNo::Link { id: None, source: sides.0, target: sides.1 }),
            Err(e) => Err(e),
        }
    }

    /// Reads the sides of a link from its content.
    fn parse_source_target(&self, content: &Vec<char>) -> (r: Result<Sides, String>)
        ensures
            matches(r, sides_of(content@)),
        decreases content@.len(), 2nat,
    {
        if content.len() == 0 || content[0] == '$' {
            return Ok((None, None));
        }
        let text = string_of(content, 0, content.len());
        assert(content@.subrange(0, content.len() as int) =~= content@);
        if same_text(text.as_str(), "*") || same_text(text.as_str(), "* *") {
            return Ok((None, None));
        }
        let tokens = self.tokenize(content);
        proof {
            lemma_tokenize_len(content@);
        }
        if tokens.len() == 0 {
            Ok((None, None))
        } else if tokens.len() == 1 {
            match self.parse_token(&tokens[0]) {
                Ok(source) => Ok((Some(Box::new(source)), None)),
                Err(e) => Err(e),
            }
        } else if tokens.len() == 2 {
            let source = match self.parse_token(&tokens[0]) {
                Ok(source) => source,
                Err(e) => {
                    return Err(e);
                },
            };
            match self.parse_token(&tokens[1]) {
                Ok(target) => Ok((Some(Box::new(source)), Some(Box::new(target)))),
                Err(e) => Err(e),
            }
        } else {
            Err(String::from_str("Too many elements in link"))
        }
    }

    /// Splits the content of a link into its tokens.
    fn tokenize(&self, input: &Vec<char>) -> (tokens: Vec<Vec<char>>)
        ensures
            word_views(tokens@) == tokenize(input@),
    {
        let mut tokens: Vec<Vec<char>> = Vec::new();
        let mut current_token: Vec<char> = Vec::new();
        let mut paren_depth: i128 = 0;
        let mut in_token = false;
        let mut i: usize = 0;
        assert(word_views(tokens@) =~= Seq::<Seq<char>>::empty());
        while i < input.len()
            invariant
                i <= input.len(),
                -i <= paren_depth <= i,
                scan(input@, i as int) == (Scan {
                    tokens: word_views(tokens@),
                    current: current_token@,
                    depth: paren_depth as int,
                    in_token,
                }),
            decreases input.len() - i,
        {
            let ch = input[i];
            let ghost before = word_views(tokens@);
            if ch == '(' {
                paren_depth = paren_depth + 1;
                current_token.push(ch);
                in_token = true;
            } else if ch == ')' {
                paren_depth = paren_depth - 1;
                current_token.push(ch);
                if paren_depth == 0 && in_token {
                    let token = trim_blanks(&current_token);
                    tokens.push(token);
                    assert(word_views(tokens@) =~= before.push(token@));
                    current_token = Vec::new();
                    in_token = false;
                }
            } else if ch == ' ' || ch == '\t' || ch == '\n' {
                if paren_depth > 0 {
                    current_token.push(ch);
                } else if in_token {
                    let token = trim_blanks(&current_token);
                    if token.len() > 0 {
                        tokens.push(token);
                        assert(word_views(tokens@) =~= before.push(token@));
                        current_token = Vec::new();
                        in_token = false;
                    }
                }
            } else {
                current_token.push(ch);
                in_token = true;
            }
            i += 1;
        }
        let ghost before = word_views(tokens@);
        let token = trim_blanks(&current_token);
        if token.len() > 0 {
            tokens.push(token);
        }
        tokens
    }

    /// Reads one token: a placeholder, a number, or a link in parentheses.
    fn parse_token(&self, token: &Vec<char>) -> (r: Result<LiNo, String>)
        ensures
            matches(r, token_of(token@)),
        decreases token@.len(), 1nat,
    {
        let text = trim_blanks(token);
        proof {
            lemma_strip_len(token@);
        }
        if is_a_placeholder(&text) {
            return Ok(LiNo::Ref(0));
        }
        match parse_unsigned(&text) {
            Some(number) => {
                return Ok(LiNo::Ref(number));
            },
            None => {},
        }
        if is_in_parentheses(&text) {
            return self.parse_link(&text);
        }
        Err(message_with("Invalid token: ", &text))
    }
}

} // verus!
