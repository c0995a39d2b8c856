//! A query processor over a store in memory, for hosts without files. A
//! query is told by its shape. One that starts with `() ((` and ends with
//! `))` creates the links that stand between, as in `() (((1 1) (2 2)))`. One
//! that starts with `((` and ends with ` ()` deletes links, as in
//! `(((1 1))) ()`. One that holds `)) ((` updates links, as in
//! `(((1: 1 1))) (((1: 1 2)))`. One that holds `$i`, `$s` or `$t` reads all
//! links.

use crate::links_operations::{Link, LinksState, LinksStorage};
use crate::lino_parser::strip;
use crate::persistence::{split_words, words_from};
use crate::text::{
    between, contains, decimal, decimal_string_u64, ends_with, find, find_from, has_prefix,
    has_suffix, is_unsigned, kept_from, kept_to, lemma_find_from, parse_unsigned,
    slice_of, starts_with, texts, to_chars, trim_blanks, unsigned_value, word_views,
};
use vstd::prelude::*;
use vstd::string::StringExecFns;

verus! {

/// What a host asks for with a query.
pub struct ClinkOptions {
    /// The name of the store.
    pub db: Option<String>,
    /// Whether the query is shown.
    pub trace: bool,
    /// The link whose structure is asked for.
    pub structure: Option<u64>,
    /// Whether the links are shown as they were before the query.
    pub before: bool,
    /// Whether the changes are shown.
    pub changes: bool,
    /// Whether the links are shown as they are after the query.
    pub after: bool,
}

impl Default for ClinkOptions {
    fn default() -> (options: ClinkOptions)
        ensures
            options.db is Some,
            options.db->Some_0@ == "db.links"@,
            !options.trace,
            options.structure is None,
            !options.before,
            !options.changes,
            !options.after,
    {
        ClinkOptions {
            db: Some(String::from_str("db.links")),
            trace: false,
            structure: None,
            before: false,
            changes: false,
            after: false,
        }
    }
}

/// What a host gets back for a query.
pub struct ClinkResult {
    pub success: bool,
    pub output: String,
    pub error: Option<String>,
}

impl ClinkResult {
    /// The answer for a query that ended with this output or this error.
    pub fn from_outcome(outcome: Result<String, String>) -> (result: ClinkResult)
        ensures
            match outcome {
                Ok(output) => result.success && result.output == output && result.error is None,
                Err(error) => !result.success && result.output@.len() == 0 && result.error == Some(
                    error,
                ),
            },
    {
        match outcome {
            Ok(output) => ClinkResult { success: true, output, error: None },
            Err(error) => ClinkResult { success: false, output: String::new(), error: Some(error) },
        }
    }
}

/// The opening parenthesis.
pub open spec fn is_open() -> spec_fn(char) -> bool {
    |c: char| c == '('
}

/// The closing parenthesis.
pub open spec fn is_close() -> spec_fn(char) -> bool {
    |c: char| c == ')'
}

/// The colon.
pub open spec fn is_colon() -> spec_fn(char) -> bool {
    |c: char| c == ':'
}

/// A link as `(id: source target)`.
pub open spec fn shown(link: Link) -> Seq<char> {
    seq!['('] + decimal(link.id as nat) + seq![':', ' '] + decimal(link.source as nat) + seq![' ']
        + decimal(link.target as nat) + seq![')']
}

/// The record of a creation: `() ((id: source target))`.
pub open spec fn created_line(link: Link) -> Seq<char> {
    seq!['(', ')', ' ', '('] + shown(link) + seq![')']
}

/// The record of a deletion: `((id: source target)) ()`.
pub open spec fn deleted_line(link: Link) -> Seq<char> {
    seq!['('] + shown(link) + seq![')', ' ', '(', ')']
}

/// The record of an update: `((id: source target)) ((id: source target))`.
pub open spec fn updated_line(before: Link, after: Link) -> Seq<char> {
    seq!['('] + shown(before) + seq![')', ' ', '('] + shown(after) + seq![')']
}

/// Where the splitting of a list of links stands: the links that are
/// complete, the characters of the link that is being read, and the depth of
/// parentheses.
pub ghost struct Split {
    pub links: Seq<Seq<char>>,
    pub current: Seq<char>,
    pub depth: int,
}

/// The state after one more character. A link ends with the `)` that brings
/// the depth back to 0; blanks between links are passed over.
pub open spec fn split_step(state: Split, c: char) -> Split {
    if c == '(' {
        Split { current: state.current.push(c), depth: state.depth + 1, ..state }
    } else if c == ')' {
        if state.depth - 1 == 0 && strip(state.current.push(c)).len() > 0 {
            Split {
                links: state.links.push(strip(state.current.push(c))),
                current: Seq::empty(),
                depth: 0,
            }
        } else {
            Split { current: state.current.push(c), depth: state.depth - 1, ..state }
        }
    } else if c == ' ' && state.depth == 0 {
        state
    } else {
        Split { current: state.current.push(c), ..state }
    }
}

/// The state after the first `n` characters.
pub open spec fn split(input: Seq<char>, n: int) -> Split
    decreases n,
{
    if n <= 0 || n > input.len() {
        Split { links: Seq::empty(), current: Seq::empty(), depth: 0 }
    } else {
        split_step(split(input, n - 1), input[n - 1])
    }
}

/// The links of a list such as `(1 1) (2 2)`, each with its parentheses.
pub open spec fn parse_links(input: Seq<char>) -> Seq<Seq<char>> {
    let end = split(input, input.len() as int);
    if strip(end.current).len() > 0 {
        end.links.push(strip(end.current))
    } else {
        end.links
    }
}

/// The words of a link without the parentheses around it.
pub open spec fn link_words(link: Seq<char>) -> Seq<Seq<char>> {
    words_from(between(link, is_open(), is_close()), 0)
}

/// `word` without the colons at its end.
pub open spec fn without_colons(word: Seq<char>) -> Seq<char> {
    word.take(kept_to(word, is_colon(), 0, word.len() as int))
}

/// The source and the target of a link such as `(1 2)`.
pub open spec fn link_pair(link: Seq<char>) -> Result<(u64, u64), Seq<char>> {
    let words = link_words(link);
    if words.len() < 2 {
        Err("Invalid link format"@)
    } else if !is_unsigned(words[0]) {
        Err("Invalid source ID"@)
    } else if !is_unsigned(words[1]) {
        Err("Invalid target ID"@)
    } else {
        Ok((unsigned_value(words[0]), unsigned_value(words[1])))
    }
}

/// The link that a text such as `(1: 2 3)` denotes.
pub open spec fn link_with_id(link: Seq<char>) -> Result<Link, Seq<char>> {
    let words = link_words(link);
    if words.len() < 3 {
        Err("Invalid link format with ID"@)
    } else if !is_unsigned(without_colons(words[0])) {
        Err("Invalid link ID"@)
    } else if !is_unsigned(words[1]) {
        Err("Invalid source ID"@)
    } else if !is_unsigned(words[2]) {
        Err("Invalid target ID"@)
    } else {
        Ok(
            Link {
                id: unsigned_value(without_colons(words[0])),
                source: unsigned_value(words[1]),
                target: unsigned_value(words[2]),
            },
        )
    }
}

/// A store after some steps of a query, and the records of the steps or the
/// reason why the query stopped.
pub type Run = (LinksState, Result<Seq<Seq<char>>, Seq<char>>);

/// Creates the links of `items` from position `i` on.
pub open spec fn create_each(state: LinksState, items: Seq<Seq<char>>, i: int, changes: Seq<Seq<char>>) -> Run
    decreases items.len() - i,
{
    if i < 0 || i >= items.len() {
        (state, Ok(changes))
    } else {
        match link_pair(items[i]) {
            Err(e) => (state, Err(e)),
            Ok((source, target)) => if state.has_room() {
                create_each(
                    state.create_link(source, target),
                    items,
                    i + 1,
                    changes.push(created_line(Link { id: state.next_id, source, target })),
                )
            } else {
                (state, Err("No identifier is left"@))
            },
        }
    }
}

/// The records of the deletion of the first `n` links of a listing.
pub open spec fn deleted_lines(listing: Seq<Link>, n: int) -> Seq<Seq<char>>
    decreases n,
{
    if n <= 0 || n > listing.len() {
        Seq::empty()
    } else {
        deleted_lines(listing, n - 1).push(deleted_line(listing[n - 1]))
    }
}

/// Deletes what the items from position `i` on say: an item with `*` all
/// links, any other item the first link with its source and target.
pub open spec fn delete_each(state: LinksState, items: Seq<Seq<char>>, i: int, changes: Seq<Seq<char>>) -> Run
    decreases items.len() - i,
{
    if i < 0 || i >= items.len() {
        (state, Ok(changes))
    } else if items[i].contains('*') {
        delete_each(
            state.delete_all(),
            items,
            i + 1,
            changes + deleted_lines(state.listing(), state.listing().len() as int),
        )
    } else {
        match link_pair(items[i]) {
            Err(e) => (state, Err(e)),
            Ok((source, target)) => match state.find_link(source, target) {
                Some(link) => delete_each(
                    state.delete_link(link.id),
                    items,
                    i + 1,
                    changes.push(deleted_line(Link { id: link.id, source, target })),
                ),
                None => delete_each(state, items, i + 1, changes),
            },
        }
    }
}

/// Updates the links of `from` by those of `to` at the same position, from
/// position `i` on. A pair of different identifiers is passed over.
pub open spec fn update_each(
    state: LinksState,
    from: Seq<Seq<char>>,
    to: Seq<Seq<char>>,
    i: int,
    changes: Seq<Seq<char>>,
) -> Run
    decreases from.len() - i,
{
    if i < 0 || i >= from.len() || i >= to.len() {
        (state, Ok(changes))
    } else {
        match link_with_id(from[i]) {
            Err(e) => (state, Err(e)),
            Ok(before) => match link_with_id(to[i]) {
                Err(e) => (state, Err(e)),
                Ok(after) => if before.id == after.id {
                    update_each(
                        state.update_link(before.id, after.source, after.target),
                        from,
                        to,
                        i + 1,
                        changes.push(updated_line(before, after)),
                    )
                } else {
                    update_each(state, from, to, i + 1, changes)
                },
            },
        }
    }
}

/// A record for each of the first `n` links of a listing that shows the link
/// unchanged.
pub open spec fn read_lines(listing: Seq<Link>, n: int) -> Seq<Seq<char>>
    decreases n,
{
    if n <= 0 || n > listing.len() {
        Seq::empty()
    } else {
        read_lines(listing, n - 1).push(updated_line(listing[n - 1], listing[n - 1]))
    }
}

/// The notation of each of the first `n` links of a listing.
pub open spec fn shown_lines(listing: Seq<Link>, n: int) -> Seq<Seq<char>>
    decreases n,
{
    if n <= 0 || n > listing.len() {
        Seq::empty()
    } else {
        shown_lines(listing, n - 1).push(shown(listing[n - 1]))
    }
}

/// `s` without `pattern` at its start.
pub open spec fn strip_prefix(s: Seq<char>, pattern: Seq<char>) -> Option<Seq<char>> {
    if starts_with(s, pattern) {
        Some(s.skip(pattern.len() as int))
    } else {
        None
    }
}

/// `s` without `pattern` at its end.
pub open spec fn strip_suffix(s: Seq<char>, pattern: Seq<char>) -> Option<Seq<char>> {
    if ends_with(s, pattern) {
        Some(s.take(s.len() - pattern.len()))
    } else {
        None
    }
}

/// What a creation query does: the links of the list between `() ((` and
/// `))` are created.
pub open spec fn handle_creation(state: LinksState, query: Seq<char>) -> Run {
    match strip_prefix(query, "() (("@) {
        Some(rest) => match strip_suffix(rest, "))"@) {
            Some(list) => create_each(state, parse_links(list), 0, Seq::empty()),
            None => (state, Err("Invalid creation query format"@)),
        },
        None => (state, Err("Invalid creation query format"@)),
    }
}

/// What a deletion query does: the links of the list between `((` and
/// `)) ()` are deleted.
pub open spec fn handle_deletion(state: LinksState, query: Seq<char>) -> Run {
    match strip_suffix(query, " ()"@) {
        Some(front) => match strip_prefix(front, "(("@) {
            Some(rest) => match strip_suffix(rest, "))"@) {
                Some(list) => delete_each(state, parse_links(list), 0, Seq::empty()),
                None => (state, Err("Invalid deletion query format"@)),
            },
            None => (state, Err("Invalid deletion query format"@)),
        },
        None => (state, Err("Invalid deletion query format"@)),
    }
}

/// What an update query does: the text is split at `)) ((`, which must
/// stand in it exactly once.
pub open spec fn handle_update(state: LinksState, query: Seq<char>) -> Run {
    let at = find_from(query, ")) (("@, 0);
    let behind = query.skip(at + ")) (("@.len());
    if at < 0 || contains(behind, ")) (("@) {
        (state, Err("Invalid update query format"@))
    } else {
        let front = query.take(at);
        let from = match strip_prefix(front, "(("@) {
            Some(list) => list,
            None => front,
        };
        let to = match strip_suffix(behind, "))"@) {
            Some(list) => list,
            None => behind,
        };
        update_each(state, parse_links(from), parse_links(to), 0, Seq::empty())
    }
}

/// What a read query does: every link is recorded as unchanged.
pub open spec fn handle_read(state: LinksState) -> Run {
    (state, Ok(read_lines(state.listing(), state.listing().len() as int)))
}

/// What a query does, by its shape.
pub open spec fn run(state: LinksState, raw: Seq<char>) -> Run {
    let query = strip(raw);
    if query.len() == 0 {
        (state, Ok(Seq::empty()))
    } else if starts_with(query, "() (("@) && ends_with(query, "))"@) {
        handle_creation(state, query)
    } else if ends_with(query, " ()"@) && starts_with(query, "(("@) {
        handle_deletion(state, query)
    } else if contains(query, ")) (("@) {
        handle_update(state, query)
    } else if contains(query, "$i"@) || contains(query, "$s"@) || contains(query, "$t"@) {
        handle_read(state)
    } else {
        (state, Err("Unsupported query format"@))
    }
}

/// The first `n` lines, each behind a line break but the first.
pub open spec fn joined(lines: Seq<Seq<char>>, n: int) -> Seq<char>
    decreases n,
{
    if n <= 0 || n > lines.len() {
        Seq::empty()
    } else if n == 1 {
        lines[0]
    } else {
        joined(lines, n - 1) + seq!['\n'] + lines[n - 1]
    }
}

/// The lines that a host gets for a query: the query itself where it asks
/// for a trace, the links before, the changes, and the links after, each
/// where it asks for them.
pub open spec fn report(
    before: LinksState,
    after: LinksState,
    query: Seq<char>,
    changes: Seq<Seq<char>>,
    trace: bool,
    show_before: bool,
    show_changes: bool,
    show_after: bool,
) -> Seq<Seq<char>> {
    (if trace {
        seq!["Executing query: "@ + query]
    } else {
        Seq::empty()
    }) + (if show_before {
        shown_lines(before.listing(), before.listing().len() as int)
    } else {
        Seq::empty()
    }) + (if show_changes {
        changes
    } else {
        Seq::empty()
    }) + (if show_after {
        shown_lines(after.listing(), after.listing().len() as int)
    } else {
        Seq::empty()
    })
}

/// Whether a step ended as its description says.
pub open spec fn agrees(r: Result<Vec<String>, String>, state: LinksState, run: Run) -> bool {
    state == run.0 && match run.1 {
        Ok(changes) => r is Ok && texts(r->Ok_0@) == changes,
        Err(message) => r is Err && r->Err_0@ == message,
    }
}

/// A link as `(id: source target)`, added to `text`.
fn push_shown(text: &mut String, link: &Link)
    ensures
        final(text)@ == old(text)@ + shown(*link),
{
    text.push('(');
    text.append(decimal_string_u64(link.id).as_str());
    text.push(':');
    text.push(' ');
    text.append(decimal_string_u64(link.source).as_str());
    text.push(' ');
    text.append(decimal_string_u64(link.target).as_str());
    text.push(')');
}

fn shown_text(link: &Link) -> (text: String)
    ensures
        text@ == shown(*link),
{
    let mut text = String::new();
    push_shown(&mut text, link);
    text
}

fn created_text(link: &Link) -> (text: String)
    ensures
        text@ == created_line(*link),
{
    let mut text = String::new();
    text.push('(');
    text.push(')');
    text.push(' ');
    text.push('(');
    push_shown(&mut text, link);
    text.push(')');
    text
}

fn deleted_text(link: &Link) -> (text: String)
    ensures
        text@ == deleted_line(*link),
{
    let mut text = String::new();
    text.push('(');
    push_shown(&mut text, link);
    text.push(')');
    text.push(' ');
    text.push('(');
    text.push(')');
    text
}

fn updated_text(before: &Link, after: &Link) -> (text: String)
    ensures
        text@ == updated_line(*before, *after),
{
    let mut text = String::new();
    text.push('(');
    push_shown(&mut text, before);
    text.push(')');
    text.push(' ');
    text.push('(');
    push_shown(&mut text, after);
    text.push(')');
    text
}

/// The words of a link without the parentheses around it.
fn words_of_link(link: &Vec<char>) -> (words: Vec<Vec<char>>)
    ensures
        word_views(words@) == link_words(link@),
{
    let mut from: usize = 0;
    while from < link.len() && link[from] == '('
        invariant
            from <= link.len(),
            kept_from(link@, is_open(), from as int) == kept_from(link@, is_open(), 0),
        decreases link.len() - from,
    {
        from += 1;
    }
    let mut to: usize = link.len();
    while to > from && link[to - 1] == ')'
        invariant
            from <= to <= link.len(),
            kept_to(link@, is_close(), from as int, to as int) == kept_to(
                link@,
                is_close(),
                from as int,
                link.len() as int,
            ),
        decreases to - from,
    {
        to -= 1;
    }
    let bare = slice_of(link, from, to);
    split_words(&bare)
}

/// The number that a word denotes, or the error with this message.
fn number_or(word: &Vec<char>, message: &str) -> (r: Result<u64, String>)
    ensures
        match r {
            Ok(value) => is_unsigned(word@) && value == unsigned_value(word@),
            Err(e) => !is_unsigned(word@) && e@ == message@,
        },
{
    match parse_unsigned(word) {
        Some(value) => Ok(value),
        None => Err(String::from_str(message)),
    }
}

/// Whether `c` stands in `text`.
fn has_char(text: &Vec<char>, c: char) -> (r: bool)
    ensures
        r == text@.contains(c),
{
    let mut i: usize = 0;
    while i < text.len()
        invariant
            i <= text.len(),
            forall|k: int| 0 <= k < i ==> text@[k] != c,
        decreases text.len() - i,
    {
        if text[i] == c {
            return true;
        }
        i += 1;
    }
    false
}

/// Whether `pattern` stands somewhere in `text`.
fn has_part(text: &Vec<char>, pattern: &str) -> (r: bool)
    ensures
        r == contains(text@, pattern@),
{
    find(text, &to_chars(pattern), 0).is_some()
}

/// `text` without `pattern` at its start.
fn without_prefix(text: &Vec<char>, pattern: &str) -> (r: Option<Vec<char>>)
    ensures
        match r {
            Some(rest) => strip_prefix(text@, pattern@) == Some(rest@),
            None => strip_prefix(text@, pattern@) is None,
        },
{
    let chars = to_chars(pattern);
    if has_prefix(text, &chars) {
        let rest = slice_of(text, chars.len(), text.len());
        Some(rest)
    } else {
        None
    }
}

/// `text` without `pattern` at its end.
fn without_suffix(text: &Vec<char>, pattern: &str) -> (r: Option<Vec<char>>)
    ensures
        match r {
            Some(rest) => strip_suffix(text@, pattern@) == Some(rest@),
            None => strip_suffix(text@, pattern@) is None,
        },
{
    let chars = to_chars(pattern);
    if has_suffix(text, &chars) {
        let rest = slice_of(text, 0, text.len() - chars.len());
        Some(rest)
    } else {
        None
    }
}

/// A query processor over a store of links in memory.
pub struct QueryProcessor {
    links: LinksStorage,
}

impl View for QueryProcessor {
    type V = LinksState;

    closed spec fn view(&self) -> LinksState {
        self.links@
    }
}

impl QueryProcessor {
    /// The invariant of the processor: that of its store.
    pub open spec fn wf(&self) -> bool {
        self@.wf()
    }

    /// A processor over an empty store.
    pub fn new() -> (processor: QueryProcessor)
        ensures
            processor.wf(),
            processor@ == LinksState::empty(),
    {
        QueryProcessor { links: LinksStorage::new() }
    }

    /// Runs a query and reports what the options ask for, one line each:
    /// the query, the links before, the changes, and the links after. A
    /// query that is refused midway keeps what it did up to there.
    pub fn execute(&mut self, query: &str, options: &ClinkOptions) -> (r: Result<String, String>)
        requires
            old(self).wf(),
        ensures
            final(self).wf(),
            final(self)@ == run(old(self)@, query@).0,
            match run(old(self)@, query@).1 {
                Ok(changes) => r is Ok && r->Ok_0@ == ({
                    let lines = report(
                        old(self)@,
                        final(self)@,
                        query@,
                        changes,
                        options.trace,
                        options.before,
                        options.changes,
                        options.after,
                    );
                    joined(lines, lines.len() as int)
                }),
                Err(message) => r is Err && r->Err_0@ == message,
            },
    {
        let mut output: Vec<String> = Vec::new();
        if options.trace {
            output.push(String::from_str("Executing query: ").concat(query));
        }
        if options.before {
            let before_state = self.links.get_all_links();
            self.push_shown_lines(&mut output, &before_state);
        }
        let changes = match self.parse_and_execute_query(query) {
            Ok(changes) => changes,
            Err(e) => {
                return Err(e);
            },
        };
        if options.changes {
            let ghost before = texts(output@);
            let mut i: usize = 0;
            while i < changes.len()
                invariant
                    i <= changes.len(),
                    texts(output@) == before + texts(changes@).take(i as int),
                decreases changes.len() - i,
            {
                let ghost lines = texts(output@);
                output.push(changes[i].clone());
                assert(texts(output@) =~= lines.push(changes@[i as int]@));
                assert(texts(changes@).take(i + 1) =~= texts(changes@).take(i as int).push(
                    changes@[i as int]@,
                ));
                i += 1;
            }
        }
        if options.after {
            let after_state = self.links.get_all_links();
            self.push_shown_lines(&mut output, &after_state);
        }
        assert(texts(output@) =~= report(
            old(self)@,
            self@,
            query@,
            texts(changes@),
            options.trace,
            options.before,
            options.changes,
            options.after,
        ));
        Ok(join_lines(&output))
    }

    /// Adds the notation of each link of a listing to the lines.
    fn push_shown_lines(&self, output: &mut Vec<String>, listing: &Vec<Link>)
        ensures
            texts(final(output)@) == texts(old(output)@) + shown_lines(
                listing@,
                listing@.len() as int,
            ),
    {
        let ghost before = texts(output@);
        let mut i: usize = 0;
        while i < listing.len()
            invariant
                i <= listing.len(),
                texts(output@) == before + shown_lines(listing@, i as int),
            decreases listing.len() - i,
        {
            let ghost lines = texts(output@);
            output.push(shown_text(&listing[i]));
            assert(texts(output@) =~= lines.push(shown(listing@[i as int])));
            assert(shown_lines(listing@, i + 1) == shown_lines(listing@, i as int).push(
                shown(listing@[i as int]),
            ));
            i += 1;
        }
    }

    /// Runs a query by its shape and returns the records of what it did.
    fn parse_and_execute_query(&mut self, query: &str) -> (r: Result<Vec<String>, String>)
        requires
            old(self).wf(),
        ensures
            final(self).wf(),
            agrees(r, final(self)@, run(old(self)@, query@)),
    {
        let raw = to_chars(query);
        let query = trim_blanks(&raw);
        if query.len() == 0 {
            let none: Vec<String> = Vec::new();
            assert(texts(none@) =~= Seq::<Seq<char>>::empty());
            return Ok(none);
        }
        if has_prefix(&query, &to_chars("() ((")) && has_suffix(&query, &to_chars("))")) {
            return self.handle_creation(&query);
        }
        if has_suffix(&query, &to_chars(" ()")) && has_prefix(&query, &to_chars("((")) {
            return self.handle_deletion(&query);
        }
        if has_part(&query, ")) ((") {
            return self.handle_update(&query);
        }
        if has_part(&query, "$i") || has_part(&query, "$s") || has_part(&query, "$t") {
            return self.handle_read();
        }
        Err(String::from_str("Unsupported query format"))
    }

    /// Creates the links of a query such as `() (((1 1) (2 2)))`.
    fn handle_creation(&mut self, query: &Vec<char>) -> (r: Result<Vec<String>, String>)
        requires
            old(self).wf(),
        ensures
            final(self).wf(),
            agrees(r, final(self)@, handle_creation(old(self)@, query@)),
    {
        let rest = match without_prefix(query, "() ((") {
            Some(rest) => rest,
            None => {
                return Err(String::from_str("Invalid creation query format"));
            },
        };
        let links_str = match without_suffix(&rest, "))") {
            Some(links_str) => links_str,
            None => {
                return Err(String::from_str("Invalid creation query format"));
            },
        };
        let items = self.parse_links(&links_str);
        let mut changes: Vec<String> = Vec::new();
        assert(texts(changes@) =~= Seq::<Seq<char>>::empty());
        let ghost goal = handle_creation(old(self)@, query@);
        let mut i: usize = 0;
        while i < items.len()
            invariant
                i <= items.len(),
                self.wf(),
                goal == handle_creation(old(self)@, query@),
                create_each(self@, word_views(items@), i as int, texts(changes@)) == goal,
            decreases items.len() - i,
        {
            let ghost before = texts(changes@);
            let (source, target) = match self.parse_link_pair(&items[i]) {
                Ok(pair) => pair,
                Err(e) => {
                    return Err(e);
                },
            };
            if !self.links.has_room() {
                return Err(String::from_str("No identifier is left"));
            }
            let new_id = self.links.create_link(source, target);
            let link = Link { id: new_id, source, target };
            changes.push(created_text(&link));
            assert(texts(changes@) =~= before.push(created_line(link)));
            i += 1;
        }
        Ok(changes)
    }

    /// Deletes the links of a query such as `(((1 1))) ()`.
    fn handle_deletion(&mut self, query: &Vec<char>) -> (r: Result<Vec<String>, String>)
        requires
            old(self).wf(),
        ensures
            final(self).wf(),
            agrees(r, final(self)@, handle_deletion(old(self)@, query@)),
    {
        let front = match without_suffix(query, " ()") {
            Some(front) => front,
            None => {
                return Err(String::from_str("Invalid deletion query format"));
            },
        };
        let rest = match without_prefix(&front, "((") {
            Some(rest) => rest,
            None => {
                return Err(String::from_str("Invalid deletion query format"));
            },
        };
        let links_str = match without_suffix(&rest, "))") {
            Some(links_str) => links_str,
            None => {
                return Err(String::from_str("Invalid deletion query format"));
            },
        };
        let items = self.parse_links(&links_str);
        let mut changes: Vec<String> = Vec::new();
        assert(texts(changes@) =~= Seq::<Seq<char>>::empty());
        let ghost goal = handle_deletion(old(self)@, query@);
        let mut i: usize = 0;
        while i < items.len()
            invariant
                i <= items.len(),
                self.wf(),
                goal == handle_deletion(old(self)@, query@),
                delete_each(self@, word_views(items@), i as int, texts(changes@)) == goal,
            decreases items.len() - i,
        {
            let ghost before = texts(changes@);
            if has_char(&items[i], '*') {
                let all_links = self.links.get_all_links();
                let mut k: usize = 0;
                while k < all_links.len()
                    invariant
                        k <= all_links.len(),
                        texts(changes@) == before + deleted_lines(all_links@, k as int),
                    decreases all_links.len() - k,
                {
                    let ghost lines = texts(changes@);
                    changes.push(deleted_text(&all_links[k]));
                    assert(texts(changes@) =~= lines.push(deleted_line(all_links@[k as int])));
                    assert(deleted_lines(all_links@, k + 1) == deleted_lines(
                        all_links@,
                        k as int,
                    ).push(deleted_line(all_links@[k as int])));
                    k += 1;
                }
                self.links.delete_all();
            } else {
                let (source, target) = match self.parse_link_pair(&items[i]) {
                    Ok(pair) => pair,
                    Err(e) => {
                        return Err(e);
                    },
                };
                let found = match self.links.find_link(source, target) {
                    Some(link) => Some(link.id),
                    None => None,
                };
                match found {
                    Some(link_id) => {
                        self.links.delete_link(link_id);
                        let link = Link { id: link_id, source, target };
                        changes.push(deleted_text(&link));
                        assert(texts(changes@) =~= before.push(deleted_line(link)));
                    },
                    None => {},
                }
            }
            i += 1;
        }
        Ok(changes)
    }

    /// Updates the links of a query such as `(((1: 1 1))) (((1: 1 2)))`.
    fn handle_update(&mut self, query: &Vec<char>) -> (r: Result<Vec<String>, String>)
        requires
            old(self).wf(),
        ensures
            final(self).wf(),
            agrees(r, final(self)@, handle_update(old(self)@, query@)),
    {
        let pattern = to_chars(")) ((");
        let at = match find(query, &pattern, 0) {
            Some(at) => at,
            None => {
                return Err(String::from_str("Invalid update query format"));
            },
        };
        assert(at + pattern.len() <= query.len()) by {
            lemma_find_from(query@, pattern@, 0);
        }
        let behind = slice_of(query, at + pattern.len(), query.len());
        if find(&behind, &pattern, 0).is_some() {
            return Err(String::from_str("Invalid update query format"));
        }
        let front = slice_of(query, 0, at);
        let from_part = match without_prefix(&front, "((") {
            Some(list) => list,
            None => front,
        };
        let to_part = match without_suffix(&behind, "))") {
            Some(list) => list,
            None => behind,
        };
        let from = self.parse_links(&from_part);
        let to = self.parse_links(&to_part);
        let mut changes: Vec<String> = Vec::new();
        assert(texts(changes@) =~= Seq::<Seq<char>>::empty());
        let ghost goal = handle_update(old(self)@, query@);
        let mut i: usize = 0;
        while i < from.len() && i < to.len()
            invariant
                i <= from.len(),
                i <= to.len(),
                self.wf(),
                goal == handle_update(old(self)@, query@),
                update_each(
                    self@,
                    word_views(from@),
                    word_views(to@),
                    i as int,
                    texts(changes@),
                ) == goal,
            decreases from.len() - i,
        {
            let ghost recorded = texts(changes@);
            let before = match self.parse_link_with_id(&from[i]) {
                Ok(link) => link,
                Err(e) => {
                    return Err(e);
                },
            };
            let after = match self.parse_link_with_id(&to[i]) {
                Ok(link) => link,
                Err(e) => {
                    return Err(e);
                },
            };
            if before.id == after.id {
                self.links.update_link(before.id, after.source, after.target);
                changes.push(updated_text(&before, &after));
                assert(texts(changes@) =~= recorded.push(updated_line(before, after)));
            }
            i += 1;
        }
        Ok(changes)
    }

    /// Records every link as unchanged.
    fn handle_read(&mut self) -> (r: Result<Vec<String>, String>)
        requires
            old(self).wf(),
        ensures
            final(self).wf(),
            agrees(r, final(self)@, handle_read(old(self)@)),
    {
        let all_links = self.links.get_all_links();
        let mut changes: Vec<String> = Vec::new();
        let mut i: usize = 0;
        while i < all_links.len()
            invariant
                i <= all_links.len(),
                texts(changes@) == read_lines(all_links@, i as int),
            decreases all_links.len() - i,
        {
            changes.push(updated_text(&all_links[i], &all_links[i]));
            i += 1;
        }
        Ok(changes)
    }

    /// Splits a list such as `(1 1) (2 2)` into its links.
    fn parse_links(&self, links_str: &Vec<char>) -> (links: Vec<Vec<char>>)
        ensures
            word_views(links@) == parse_links(links_str@),
    {
        let mut links: Vec<Vec<char>> = Vec::new();
        let mut current_link: Vec<char> = Vec::new();
        let mut paren_count: i128 = 0;
        let mut i: usize = 0;
        assert(word_views(links@) =~= Seq::<Seq<char>>::empty());
        while i < links_str.len()
            invariant
                i <= links_str.len(),
                -i <= paren_count <= i,
                split(links_str@, i as int) == (Split {
                    links: word_views(links@),
                    current: current_link@,
                    depth: paren_count as int,
                }),
            decreases links_str.len() - i,
        {
            let ch = links_str[i];
            let ghost before = word_views(links@);
            if ch == '(' {
                paren_count = paren_count + 1;
                current_link.push(ch);
            } else if ch == ')' {
                paren_count = paren_count - 1;
                current_link.push(ch);
                if paren_count == 0 {
                    let link = trim_blanks(&current_link);
                    if link.len() > 0 {
                        links.push(link);
                        assert(word_views(links@) =~= before.push(link@));
                        current_link = Vec::new();
                    }
                }
            } else if ch == ' ' && paren_count == 0 {
                // A blank between links belongs to none of them.
            } else {
                current_link.push(ch);
            }
            i += 1;
        }
        let ghost before = word_views(links@);
        let link = trim_blanks(&current_link);
        if link.len() > 0 {
            links.push(link);
        }
        links
    }

    /// Reads the source and the target of a link such as `(1 1)`.
    fn parse_link_pair(&self, link_str: &Vec<char>) -> (r: Result<(u64, u64), String>)
        ensures
            match link_pair(link_str@) {
                Ok(pair) => r == Ok::<(u64, u64), String>(pair),
                Err(message) => r is Err && r->Err_0@ == message,
            },
    {
        let parts = words_of_link(link_str);
        if parts.len() < 2 {
            return Err(String::from_str("Invalid link format"));
        }
        let source = match number_or(&parts[0], "Invalid source ID") {
            Ok(source) => source,
            Err(e) => {
                return Err(e);
            },
        };
        let target = match number_or(&parts[1], "Invalid target ID") {
            Ok(target) => target,
            Err(e) => {
                return Err(e);
            },
        };
        Ok((source, target))
    }

    /// Reads a link such as `(1: 1 1)`.
    fn parse_link_with_id(&self, link_str: &Vec<char>) -> (r: Result<Link, String>)
        ensures
            match link_with_id(link_str@) {
                Ok(link) => r == Ok::<Link, String>(link),
                Err(message) => r is Err && r->Err_0@ == message,
            },
    {
        let parts = words_of_link(link_str);
        if parts.len() < 3 {
            return Err(String::from_str("Invalid link format with ID"));
        }
        let first = &parts[0];
        let mut to: usize = first.len();
        while to > 0 && first[to - 1] == ':'
            invariant
                to <= first.len(),
                kept_to(first@, is_colon(), 0, to as int) == kept_to(
                    first@,
                    is_colon(),
                    0,
                    first.len() as int,
                ),
            decreases to,
        {
            to -= 1;
        }
        let id_part = slice_of(first, 0, to);
        let id = match number_or(&id_part, "Invalid link ID") {
            Ok(id) => id,
            Err(e) => {
                return Err(e);
            },
        };
        let source = match number_or(&parts[1], "Invalid source ID") {
            Ok(source) => source,
            Err(e) => {
                return Err(e);
            },
        };
        let target = match number_or(&parts[2], "Invalid target ID") {
            Ok(target) => target,
            Err(e) => {
                return Err(e);
            },
        };
        Ok(Link { id, source, target })
    }
}

/// The lines, each behind a line break but the first.
fn join_lines(lines: &Vec<String>) -> (text: String)
    ensures
        text@ == joined(texts(lines@), lines@.len() as int),
{
    let mut text = String::new();
    let mut i: usize = 0;
    while i < lines.len()
        invariant
            i <= lines.len(),
            text@ == joined(texts(lines@), i as int),
        decreases lines.len() - i,
    {
        let ghost before = text@;
        if i > 0 {
            text.push('\n');
        }
        text.append(lines[i].as_str());
        i += 1;
    }
    text
}

} // verus!
