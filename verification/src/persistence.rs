//! The saved form of a store: one doublet per line, as `(index source
//! target)` or `(index source target "name")`. Empty lines and lines that
//! start with `#` say nothing.

use crate::link::Link;
use crate::link_storage::{LinkStorage, StoreState};
use crate::parser::{left, skip_whitespace};
use crate::text::{
    decimal, decimal_string, digits_value, is_blank, is_number, is_space, kept_from, kept_to,
    parse_number, slice_of, string_of, to_chars, trim_blanks, trimmed, word_views,
};
use vstd::prelude::*;
use vstd::string::StringExecFns;

verus! {

/// The parentheses.
pub open spec fn is_paren() -> spec_fn(char) -> bool {
    |c: char| c == '(' || c == ')'
}

/// The double quote.
pub open spec fn is_double_quote() -> spec_fn(char) -> bool {
    |c: char| c == '"'
}

/// The position behind the word that starts at `pos`: a word ends before
/// whitespace.
pub open spec fn word_end(s: Seq<char>, pos: int) -> int
    decreases s.len() - pos,
{
    if 0 <= pos < s.len() && !is_space(s[pos]) {
        word_end(s, pos + 1)
    } else {
        pos
    }
}

/// The words of `s` from `pos` on.
pub open spec fn words_from(s: Seq<char>, pos: int) -> Seq<Seq<char>>
    decreases left(s, pos),
{
    let start = skip_whitespace(s, pos);
    let end = word_end(s, start);
    if start < pos || start < 0 || start >= s.len() || end <= start {
        Seq::empty()
    } else {
        seq![s.subrange(start, end)] + words_from(s, end)
    }
}

/// What a line of a saved store says: a doublet, and its name where the line
/// gives one. The parentheses around the line are optional, and so are the
/// quotes around the name; words behind the name say nothing. A line with
/// fewer than three words, or whose first three words are not all numbers,
/// says nothing.
pub open spec fn line_entry(line: Seq<char>) -> Option<(Link, Option<Seq<char>>)> {
    let words = words_from(trimmed(line, is_paren()), 0);
    if words.len() >= 3 && is_number(words[0]) && is_number(words[1]) && is_number(words[2]) {
        Some(
            (
                Link {
                    index: digits_value(words[0]) as u32,
                    source: digits_value(words[1]) as u32,
                    target: digits_value(words[2]) as u32,
                },
                if words.len() > 3 {
                    Some(trimmed(words[3], is_double_quote()))
                } else {
                    None
                },
            ),
        )
    } else {
        None
    }
}

/// The store after one line of a saved store was read. The index 0 stands
/// for no doublet and is not taken; nor is the highest index: behind it no
/// index would be free.
pub open spec fn read_line(store: StoreState, raw: Seq<char>) -> StoreState {
    let line = trimmed(raw, is_blank());
    if line.len() == 0 || line[0] == '#' {
        store
    } else {
        match line_entry(line) {
            Some((link, name)) => if 0 < link.index < u32::MAX {
                store.put(link, name)
            } else {
                store
            },
            None => store,
        }
    }
}

/// The position of the line break at or behind `pos`, or the end of the text.
pub open spec fn line_end(s: Seq<char>, pos: int) -> int
    decreases s.len() - pos,
{
    if 0 <= pos < s.len() && s[pos] != '\n' {
        line_end(s, pos + 1)
    } else {
        pos
    }
}

/// The store after the lines of `s` from `pos` on were read.
pub open spec fn read_lines(store: StoreState, s: Seq<char>, pos: int) -> StoreState
    decreases left(s, pos),
{
    let end = line_end(s, pos);
    if pos < 0 || pos >= s.len() || end < pos {
        store
    } else {
        read_lines(read_line(store, s.subrange(pos, end)), s, end + 1)
    }
}

/// The line that stands for a doublet in a saved store.
pub open spec fn line_of(store: StoreState, link: Link) -> Seq<char> {
    seq!['('] + decimal(link.index as nat) + seq![' '] + decimal(link.source as nat) + seq![' ']
        + decimal(link.target as nat) + (if store.names.contains_key(link.index) {
        seq![' ', '"'] + store.names[link.index] + seq!['"']
    } else {
        Seq::empty()
    }) + seq![')', '\n']
}

/// The lines for the first `n` doublets of a listing.
pub open spec fn lines_of(store: StoreState, listing: Seq<Link>, n: int) -> Seq<char>
    decreases n,
{
    if n <= 0 || n > listing.len() {
        Seq::empty()
    } else {
        lines_of(store, listing, n - 1) + line_of(store, listing[n - 1])
    }
}

proof fn lemma_word_end(s: Seq<char>, pos: int)
    requires
        0 <= pos <= s.len(),
    ensures
        pos <= word_end(s, pos) <= s.len(),
        pos < s.len() && !is_space(s[pos]) ==> pos < word_end(s, pos),
    decreases s.len() - pos,
{
    if pos < s.len() && !is_space(s[pos]) {
        lemma_word_end(s, pos + 1);
    }
}

/// The characters of `chars` without parentheses at both ends.
fn trim_parens(chars: &Vec<char>) -> (r: Vec<char>)
    ensures
        r@ == trimmed(chars@, is_paren()),
{
    let mut from: usize = 0;
    while from < chars.len() && (chars[from] == '(' || chars[from] == ')')
        invariant
            from <= chars.len(),
            kept_from(chars@, is_paren(), from as int) == kept_from(chars@, is_paren(), 0),
        decreases chars.len() - from,
    {
        from += 1;
    }
    let mut to: usize = chars.len();
    while to > from && (chars[to - 1] == '(' || chars[to - 1] == ')')
        invariant
            from <= to <= chars.len(),
            kept_to(chars@, is_paren(), from as int, to as int) == kept_to(
                chars@,
                is_paren(),
                from as int,
                chars.len() as int,
            ),
        decreases to - from,
    {
        to -= 1;
    }
    slice_of(chars, from, to)
}

/// The characters of `chars` without double quotes at both ends.
fn trim_quotes(chars: &Vec<char>) -> (r: Vec<char>)
    ensures
        r@ == trimmed(chars@, is_double_quote()),
{
    let mut from: usize = 0;
    while from < chars.len() && chars[from] == '"'
        invariant
            from <= chars.len(),
            kept_from(chars@, is_double_quote(), from as int) == kept_from(
                chars@,
                is_double_quote(),
                0,
            ),
        decreases chars.len() - from,
    {
        from += 1;
    }
    let mut to: usize = chars.len();
    while to > from && chars[to - 1] == '"'
        invariant
            from <= to <= chars.len(),
            kept_to(chars@, is_double_quote(), from as int, to as int) == kept_to(
                chars@,
                is_double_quote(),
                from as int,
                chars.len() as int,
            ),
        decreases to - from,
    {
        to -= 1;
    }
    slice_of(chars, from, to)
}

/// The words of a line: what stands between whitespace.
pub fn split_words(chars: &Vec<char>) -> (words: Vec<Vec<char>>)
    ensures
        word_views(words@) == words_from(chars@, 0),
{
    let mut words: Vec<Vec<char>> = Vec::new();
    let mut pos: usize = 0;
    loop
        invariant
            pos <= chars.len(),
            word_views(words@) + words_from(chars@, pos as int) == words_from(chars@, 0),
        decreases chars.len() - pos,
    {
        let ghost from = pos as int;
        let ghost before = word_views(words@);
        while pos < chars.len() && chars[pos].is_whitespace()
            invariant
                from <= pos <= chars.len(),
                skip_whitespace(chars@, pos as int) == skip_whitespace(chars@, from),
            decreases chars.len() - pos,
        {
            pos += 1;
        }
        if pos >= chars.len() {
            return words;
        }
        let start = pos;
        while pos < chars.len() && !chars[pos].is_whitespace()
            invariant
                start <= pos <= chars.len(),
                word_end(chars@, pos as int) == word_end(chars@, start as int),
            decreases chars.len() - pos,
        {
            pos += 1;
        }
        proof {
            lemma_word_end(chars@, start as int);
        }
        let word = slice_of(chars, start, pos);
        words.push(word);
        proof {
            assert(before.push(chars@.subrange(start as int, pos as int)) + words_from(
                chars@,
                pos as int,
            ) =~= before + (seq![chars@.subrange(start as int, pos as int)] + words_from(
                chars@,
                pos as int,
            )));
        }
    }
}

/// The number that a word denotes.
fn number_of(word: &Vec<char>) -> (r: Option<u32>)
    ensures
        r is Some <==> is_number(word@),
        r is Some ==> r->Some_0 == digits_value(word@),
{
    let text = string_of(word, 0, word.len());
    assert(word@.subrange(0, word.len() as int) =~= word@);
    parse_number(text.as_str())
}

impl LinkStorage {
    /// Reads one line of a saved store: a doublet, and its name where the
    /// line gives one.
    pub fn parse_link_line(&self, line: &str) -> (r: Option<(Link, Option<String>)>)
        ensures
            match r {
                Some((link, name)) => line_entry(line@) == Some(
                    (
                        link,
                        match name {
                            Some(name) => Some(name@),
                            None => None,
                        },
                    ),
                ),
                None => line_entry(line@) is None,
            },
    {
        let chars = to_chars(line);
        let inner = trim_parens(&chars);
        let parts = split_words(&inner);
        if parts.len() < 3 {
            return None;
        }
        let index = match number_of(&parts[0]) {
            Some(index) => index,
            None => {
                return None;
            },
        };
        let source = match number_of(&parts[1]) {
            Some(source) => source,
            None => {
                return None;
            },
        };
        let target = match number_of(&parts[2]) {
            Some(target) => target,
            None => {
                return None;
            },
        };
        let name = if parts.len() > 3 {
            assert(word_views(parts@)[3] == parts@[3]@);
            let bare = trim_quotes(&parts[3]);
            let text = string_of(&bare, 0, bare.len());
            Some(text)
        } else {
            None
        };
        Some((Link::new(index, source, target), name))
    }

    /// Reads one line of a saved store into the store. Empty lines, lines
    /// that start with `#` and lines that say nothing change nothing.
    pub fn load_line(&mut self, raw: &str)
        requires
            old(self).wf(),
        ensures
            final(self).wf(),
            final(self)@ == read_line(old(self)@, raw@),
            final(self).spec_db_path() == old(self).spec_db_path(),
            final(self).spec_trace() == old(self).spec_trace(),
    {
        let chars = to_chars(raw);
        let line = trim_blanks(&chars);
        if line.len() == 0 || line[0] == '#' {
            return ;
        }
        let text = string_of(&line, 0, line.len());
        assert(line@.subrange(0, line.len() as int) =~= line@);
        match self.parse_link_line(text.as_str()) {
            Some((link, name)) => {
                if 0 < link.index && link.index < u32::MAX {
                    match &name {
                        Some(name) => {
                            self.put(link, Some(name.as_str()));
                        },
                        None => {
                            self.put(link, None);
                        },
                    }
                }
            },
            None => {},
        }
    }

    /// Reads a saved store, line by line, into the store.
    pub fn load_text(&mut self, text: &str)
        requires
            old(self).wf(),
        ensures
            final(self).wf(),
            final(self)@ == read_lines(old(self)@, text@, 0),
            final(self).spec_db_path() == old(self).spec_db_path(),
            final(self).spec_trace() == old(self).spec_trace(),
    {
        let chars = to_chars(text);
        let mut pos: usize = 0;
        while pos < chars.len()
            invariant
                pos <= chars.len(),
                chars@ == text@,
                self.wf(),
                self.spec_db_path() == old(self).spec_db_path(),
                self.spec_trace() == old(self).spec_trace(),
                read_lines(self@, chars@, pos as int) == read_lines(old(self)@, text@, 0),
            decreases chars.len() - pos,
        {
            let start = pos;
            while pos < chars.len() && chars[pos] != '\n'
                invariant
                    start <= pos <= chars.len(),
                    line_end(chars@, pos as int) == line_end(chars@, start as int),
                decreases chars.len() - pos,
            {
                pos += 1;
            }
            let line = string_of(&chars, start, pos);
            self.load_line(line.as_str());
            if pos < chars.len() {
                pos += 1;
            } else {
                assert(read_lines(self@, chars@, pos + 1) == self@);
            }
        }
    }

    /// The saved form of the store: one line for each doublet, in ascending
    /// order of index.
    pub fn to_text(&self) -> (text: String)
        requires
            self.wf(),
        ensures
            exists|listing: Seq<Link>| #[trigger]
                self@.lists(listing) && text@ == lines_of(self@, listing, listing.len() as int),
    {
        let listing = self.all();
        let ghost links = listing@.unref();
        let mut text = String::new();
        let mut i: usize = 0;
        while i < listing.len()
            invariant
                i <= listing.len(),
                links == listing@.unref(),
                text@ == lines_of(self@, links, i as int),
            decreases listing.len() - i,
        {
            let link = listing[i];
            let ghost before = text@;
            assert(links[i as int] == *link);
            text.push('(');
            text.append(decimal_string(link.index).as_str());
            text.push(' ');
            text.append(decimal_string(link.source).as_str());
            text.push(' ');
            text.append(decimal_string(link.target).as_str());
            match self.get_name(link.index) {
                Some(name) => {
                    text.push(' ');
                    text.push('"');
                    text.append(name.as_str());
                    text.push('"');
                },
                None => {},
            }
            text.push(')');
            text.push('\n');
            i += 1;
        }
        text
    }
}

} // verus!
