//! The grammar: the tagged tree that a text is cut into before values are
//! built from it.

use vstd::prelude::*;
use crate::error::{Error, Fault};

verus! {

/// The productions that tag the nodes of a document's tree.
#[derive(Debug, Clone, Copy, PartialEq, Eq, Structural)]
pub enum Rule {
    Object,
    Array,
    /// A member of an object: a key and a value.
    Pair,
    /// A string, quotes included; a key without quotes too.
    String,
    /// A run of a string's characters between placeholders; its children are
    /// the escape sequences in it.
    Text,
    /// The target inside a placeholder.
    Reference,
    Number,
    Bool,
    Null,
    EscSlash,
    EscBackslash,
    EscCarriageReturn,
    EscTab,
    EscQuoteDouble,
    EscQuoteSingle,
    EscBackspace,
    EscFormFeed,
    EscNewLine,
    EscUnicode,
}

impl Rule {
    /// The productions of a value.
    pub open spec fn is_value(self) -> bool {
        self == Rule::Object || self == Rule::Array || self == Rule::String || self == Rule::Number
            || self == Rule::Bool || self == Rule::Null
    }

    /// The productions of an escape sequence.
    pub open spec fn is_escape(self) -> bool {
        self == Rule::EscSlash || self == Rule::EscBackslash || self == Rule::EscCarriageReturn
            || self == Rule::EscTab || self == Rule::EscQuoteDouble || self == Rule::EscQuoteSingle
            || self == Rule::EscBackspace || self == Rule::EscFormFeed || self == Rule::EscNewLine
            || self == Rule::EscUnicode
    }
}

/// A node of a document's tree: its production, the span of the text that it
/// matched, as offsets in characters, and the nodes inside it, in the order of
/// the text.
#[derive(Debug, PartialEq, Eq)]
pub struct Node {
    pub rule: Rule,
    pub start: usize,
    pub end: usize,
    pub children: Vec<Node>,
}

/// The model of a [`Node`].
pub struct Tree {
    pub rule: Rule,
    pub start: int,
    pub end: int,
    pub children: Seq<Tree>,
}

/// The model of `node`.
pub open spec fn tree_of(node: Node) -> Tree
    decreases node,
{
    Tree {
        rule: node.rule,
        start: node.start as int,
        end: node.end as int,
        children: Seq::new(
            node.children@.len(),
            |i: int|
                if 0 <= i < node.children@.len() {
                    tree_of(node.children@[i])
                } else {
                    arbitrary()
                },
        ),
    }
}

/// The models of a sequence of nodes.
pub open spec fn trees(nodes: Seq<Node>) -> Seq<Tree> {
    Seq::new(nodes.len(), |i: int| tree_of(nodes[i]))
}

impl View for Node {
    type V = Tree;

    open spec fn view(&self) -> Tree {
        tree_of(*self)
    }
}

/// The children of a node's model are the models of its children.
pub proof fn lemma_tree_of(node: Node)
    ensures
        tree_of(node).children == trees(node.children@),
{
    assert(tree_of(node).children =~= trees(node.children@));
}

/// The characters that open and close a string.
pub open spec fn is_quote(c: char) -> bool {
    c == '"' || c == '\'' || c == '`'
}

impl Tree {
    /// The text that the node matched.
    pub open spec fn text(self, src: Seq<char>) -> Seq<char> {
        src.subrange(self.start, self.end)
    }

    /// The node's text starts with a quote.
    pub open spec fn quoted(self, src: Seq<char>) -> bool {
        0 <= self.start < self.end <= src.len() && is_quote(src[self.start])
    }

    /// Where what a string holds starts: behind the quote, if there is one.
    pub open spec fn content_start(self, src: Seq<char>) -> int {
        if self.quoted(src) {
            self.start + 1
        } else {
            self.start
        }
    }

    /// Where what a string holds ends: before the closing quote, if the string
    /// is quoted.
    pub open spec fn content_end(self, src: Seq<char>) -> int {
        if self.quoted(src) {
            self.end - 1
        } else {
            self.end
        }
    }

    /// The tree has the shape that the grammar gives to a tree over `src`:
    /// every span lies in the text, children lie in their parent, one after
    /// the other, and each production has the children that belong to it.
    pub open spec fn wf(self, src: Seq<char>) -> bool
        decreases self,
    {
        &&& 0 <= self.start <= self.end <= src.len()
        &&& forall|i: int|
            0 <= i < self.children.len() ==> {
                &&& (#[trigger] self.children[i]).wf(src)
                &&& self.start <= self.children[i].start
                &&& self.children[i].end <= self.end
            }
        &&& forall|i: int, j: int|
            0 <= i < j < self.children.len() ==> (#[trigger] self.children[i]).end <= (
            #[trigger] self.children[j]).start
        &&& match self.rule {
            Rule::Object => forall|i: int|
                0 <= i < self.children.len() ==> (#[trigger] self.children[i]).rule == Rule::Pair,
            Rule::Pair => {
                &&& self.children.len() == 2
                &&& self.children[0].rule == Rule::String
                &&& self.children[1].rule.is_value()
            },
            Rule::Array => forall|i: int|
                0 <= i < self.children.len() ==> (#[trigger] self.children[i]).rule.is_value(),
            Rule::String => {
                &&& self.quoted(src) ==> self.end - self.start >= 2
                &&& forall|i: int|
                    0 <= i < self.children.len() ==> {
                        &&& (#[trigger] self.children[i]).rule == Rule::Text
                            || self.children[i].rule == Rule::Reference
                        &&& self.content_start(src) <= self.children[i].start
                        &&& self.children[i].end <= self.content_end(src)
                    }
            },
            Rule::Text => forall|i: int|
                0 <= i < self.children.len() ==> (#[trigger] self.children[i]).rule.is_escape(),
            _ => self.children.len() == 0,
        }
    }
}

/// Blank characters between the tokens of a document.
pub open spec fn is_space(c: char) -> bool {
    c == ' ' || c == '\t' || c == '\r' || c == '\n'
}

/// The decimal digits.
pub open spec fn is_digit(c: char) -> bool {
    '0' <= c <= '9'
}

/// The hexadecimal digits.
pub open spec fn is_hex(c: char) -> bool {
    is_digit(c) || 'a' <= c <= 'f' || 'A' <= c <= 'F'
}

/// The characters of a key that is written without quotes.
pub open spec fn is_bare(c: char) -> bool {
    is_digit(c) || 'a' <= c <= 'z' || 'A' <= c <= 'Z' || c == '_' || c == '-'
}

/// The characters that a placeholder's target is made of: all but braces,
/// quotes and the backslash.
pub open spec fn is_target(c: char) -> bool {
    c != '{' && c != '}' && c != '\\' && !is_quote(c)
}

/// `s` holds `c` at offset `at`.
pub open spec fn has(s: Seq<char>, at: int, c: char) -> bool {
    0 <= at < s.len() && s[at] == c
}

/// What reading a production at some offset comes to: the node and the offset
/// behind it, or the offset at which the text stops matching.
pub type Lexed = Result<(Tree, int), int>;

/// The offset behind a block comment's end, looked for from `at` on.
pub open spec fn comment_end(s: Seq<char>, at: int) -> Option<int>
    decreases s.len() - at,
{
    if at < 0 || at + 1 >= s.len() {
        None
    } else if s[at] == '*' && s[at + 1] == '/' {
        Some(at + 2)
    } else {
        comment_end(s, at + 1)
    }
}

/// The offset of the end of the line that `at` is in.
pub open spec fn line_end(s: Seq<char>, at: int) -> int
    decreases s.len() - at,
{
    if at < 0 || at >= s.len() || s[at] == '\n' {
        at
    } else {
        line_end(s, at + 1)
    }
}

/// The offset of the first token from `at` on: behind blanks, block comments
/// (`/* .. */`) and line comments (`// ..`). A block comment without an end is
/// a fault at the end of the text.
pub open spec fn skip(s: Seq<char>, at: int) -> Result<int, int>
    decreases s.len() - at,
{
    if at < 0 || at >= s.len() {
        Ok(at)
    } else if is_space(s[at]) {
        skip(s, at + 1)
    } else if s[at] == '/' && has(s, at + 1, '*') {
        match comment_end(s, at + 2) {
            Some(behind) => if at < behind <= s.len() {
                skip(s, behind)
            } else {
                Err(at)
            },
            None => Err(s.len() as int),
        }
    } else if s[at] == '/' && has(s, at + 1, '/') {
        let behind = line_end(s, at + 2);
        if at < behind <= s.len() {
            skip(s, behind)
        } else {
            Err(at)
        }
    } else {
        Ok(at)
    }
}

/// The kinds of characters that runs are made of.
#[derive(Debug, Clone, Copy, PartialEq, Eq, Structural)]
pub enum Class {
    Digit,
    Bare,
    Target,
}

impl Class {
    /// `c` is of this kind.
    pub open spec fn holds(self, c: char) -> bool {
        match self {
            Class::Digit => is_digit(c),
            Class::Bare => is_bare(c),
            Class::Target => is_target(c),
        }
    }
}

/// The offset behind the run of characters of the kind `of` that starts at
/// `at`.
pub open spec fn run_end(s: Seq<char>, at: int, of: Class) -> int
    decreases s.len() - at,
{
    if at < 0 || at >= s.len() || !of.holds(s[at]) {
        at
    } else {
        run_end(s, at + 1, of)
    }
}

/// `s` holds the word `word` at offset `at`.
pub open spec fn word_at(s: Seq<char>, at: int, word: Seq<char>) -> bool {
    0 <= at && at + word.len() <= s.len() && s.subrange(at, at + word.len()) == word
}

/// A leaf of the tree.
pub open spec fn leaf(rule: Rule, start: int, end: int) -> Tree {
    Tree { rule, start, end, children: Seq::empty() }
}

/// `true`, `false` or `null` at `at`.
pub open spec fn keyword(s: Seq<char>, at: int) -> Lexed {
    if word_at(s, at, seq!['t', 'r', 'u', 'e']) {
        Ok((leaf(Rule::Bool, at, at + 4), at + 4))
    } else if word_at(s, at, seq!['f', 'a', 'l', 's', 'e']) {
        Ok((leaf(Rule::Bool, at, at + 5), at + 5))
    } else if word_at(s, at, seq!['n', 'u', 'l', 'l']) {
        Ok((leaf(Rule::Null, at, at + 4), at + 4))
    } else {
        Err(at)
    }
}

/// The offset behind the digits before the point of a number whose first
/// digit should stand at `at`: a lone zero, or digits that start with none.
pub open spec fn integer_end(s: Seq<char>, at: int) -> Result<int, int> {
    if has(s, at, '0') {
        Ok(at + 1)
    } else if 0 <= at < s.len() && is_digit(s[at]) {
        Ok(run_end(s, at + 1, Class::Digit))
    } else {
        Err(at)
    }
}

/// The offset behind the fraction that may follow at `at`: a point and at
/// least one digit.
pub open spec fn fraction_end(s: Seq<char>, at: int) -> Result<int, int> {
    if has(s, at, '.') {
        if 0 <= at + 1 < s.len() && is_digit(s[at + 1]) {
            Ok(run_end(s, at + 2, Class::Digit))
        } else {
            Err(at + 1)
        }
    } else {
        Ok(at)
    }
}

/// The offset behind the exponent that may follow at `at`: `e` or `E`, a sign
/// or none, and at least one digit.
pub open spec fn exponent_end(s: Seq<char>, at: int) -> Result<int, int> {
    if has(s, at, 'e') || has(s, at, 'E') {
        let digits = if has(s, at + 1, '+') || has(s, at + 1, '-') {
            at + 2
        } else {
            at + 1
        };
        if 0 <= digits < s.len() && is_digit(s[digits]) {
            Ok(run_end(s, digits + 1, Class::Digit))
        } else {
            Err(digits)
        }
    } else {
        Ok(at)
    }
}

/// A number at `at`: a minus sign or none, the digits before the point, and
/// a fraction and an exponent where they follow.
pub open spec fn number(s: Seq<char>, at: int) -> Lexed {
    let first = if has(s, at, '-') {
        at + 1
    } else {
        at
    };
    match integer_end(s, first) {
        Err(fault) => Err(fault),
        Ok(whole) => match fraction_end(s, whole) {
            Err(fault) => Err(fault),
            Ok(fraction) => match exponent_end(s, fraction) {
                Err(fault) => Err(fault),
                Ok(end) => Ok((leaf(Rule::Number, at, end), end)),
            },
        },
    }
}

/// The escape sequence that starts with the backslash at `at`: its production
/// and the offset behind it.
pub open spec fn escape_at(s: Seq<char>, at: int) -> Option<(Rule, int)> {
    if !(0 <= at && at + 1 < s.len()) {
        None
    } else if s[at + 1] == '/' {
        Some((Rule::EscSlash, at + 2))
    } else if s[at + 1] == '\\' {
        Some((Rule::EscBackslash, at + 2))
    } else if s[at + 1] == 'r' {
        Some((Rule::EscCarriageReturn, at + 2))
    } else if s[at + 1] == 't' {
        Some((Rule::EscTab, at + 2))
    } else if s[at + 1] == '"' {
        Some((Rule::EscQuoteDouble, at + 2))
    } else if s[at + 1] == '\'' {
        Some((Rule::EscQuoteSingle, at + 2))
    } else if s[at + 1] == 'b' {
        Some((Rule::EscBackspace, at + 2))
    } else if s[at + 1] == 'f' {
        Some((Rule::EscFormFeed, at + 2))
    } else if s[at + 1] == 'n' {
        Some((Rule::EscNewLine, at + 2))
    } else if s[at + 1] == 'u' && at + 6 <= s.len() && is_hex(s[at + 2]) && is_hex(s[at + 3])
        && is_hex(s[at + 4]) && is_hex(s[at + 5]) {
        Some((Rule::EscUnicode, at + 6))
    } else {
        None
    }
}

/// The offset of the brace that closes the placeholder that starts at `at`:
/// the sigil, an opening brace, a target of at least one character, and the
/// closing brace.
pub open spec fn placeholder_at(s: Seq<char>, at: int, sigil: char) -> Option<int> {
    if has(s, at, sigil) && has(s, at + 1, '{') {
        let close = run_end(s, at + 2, Class::Target);
        if close > at + 2 && has(s, close, '}') {
            Some(close)
        } else {
            None
        }
    } else {
        None
    }
}

/// The run of text that starts at `at` in a string closed by `quote`: it ends
/// before the quote, before a placeholder and at the end of the text. With it
/// come its escape sequences, behind those of `escapes`. A backslash that
/// starts no escape sequence is a fault.
pub open spec fn text_run(s: Seq<char>, at: int, quote: char, sigil: char, escapes: Seq<Tree>) -> Result<
    (Seq<Tree>, int),
    int,
>
    decreases s.len() - at,
{
    if at < 0 || at >= s.len() || s[at] == quote || placeholder_at(s, at, sigil) is Some {
        Ok((escapes, at))
    } else if s[at] == '\\' {
        match escape_at(s, at) {
            Some((rule, behind)) => if behind > at {
                text_run(s, behind, quote, sigil, escapes.push(leaf(rule, at, behind)))
            } else {
                Err(at)
            },
            None => Err(at),
        }
    } else {
        text_run(s, at + 1, quote, sigil, escapes)
    }
}

/// The children of a string closed by `quote`, `done` and those from `at` on,
/// and the offset of the closing quote. A string without a closing quote is a
/// fault at the end of the text.
pub open spec fn pieces(s: Seq<char>, at: int, quote: char, sigil: char, done: Seq<Tree>) -> Result<
    (Seq<Tree>, int),
    int,
>
    decreases s.len() - at,
{
    if at < 0 || at >= s.len() {
        Err(s.len() as int)
    } else if s[at] == quote {
        Ok((done, at))
    } else {
        match placeholder_at(s, at, sigil) {
            Some(close) => if close > at {
                pieces(s, close + 1, quote, sigil, done.push(leaf(Rule::Reference, at + 2, close)))
            } else {
                Err(at)
            },
            None => match text_run(s, at, quote, sigil, Seq::empty()) {
                Err(fault) => Err(fault),
                Ok((escapes, behind)) => if at < behind <= s.len() {
                    pieces(
                        s,
                        behind,
                        quote,
                        sigil,
                        done.push(Tree { rule: Rule::Text, start: at, end: behind, children: escapes }),
                    )
                } else {
                    Err(at)
                },
            },
        }
    }
}

/// The string whose opening quote stands at `at`.
pub open spec fn string(s: Seq<char>, at: int, sigil: char) -> Lexed {
    if 0 <= at < s.len() && is_quote(s[at]) {
        match pieces(s, at + 1, s[at], sigil, Seq::empty()) {
            Err(fault) => Err(fault),
            Ok((children, close)) => Ok(
                (Tree { rule: Rule::String, start: at, end: close + 1, children }, close + 1),
            ),
        }
    } else {
        Err(at)
    }
}

/// The key at `at`: a string, or a run of letters, digits, `_` and `-`
/// without quotes.
pub open spec fn key(s: Seq<char>, at: int, sigil: char) -> Lexed {
    if 0 <= at < s.len() && is_quote(s[at]) {
        string(s, at, sigil)
    } else {
        let end = run_end(s, at, Class::Bare);
        if end > at {
            Ok(
                (
                    Tree {
                        rule: Rule::String,
                        start: at,
                        end,
                        children: seq![leaf(Rule::Text, at, end)],
                    },
                    end,
                ),
            )
        } else {
            Err(at)
        }
    }
}

/// The value at `at`.
pub open spec fn value(s: Seq<char>, at: int, sigil: char) -> Lexed
    decreases s.len() - at, 1nat,
{
    if at < 0 || at >= s.len() {
        Err(at)
    } else if s[at] == '{' {
        match skip(s, at + 1) {
            Err(fault) => Err(fault),
            Ok(first) => if at < first <= s.len() {
                members(s, at, first, sigil, Seq::empty())
            } else {
                Err(at)
            },
        }
    } else if s[at] == '[' {
        match skip(s, at + 1) {
            Err(fault) => Err(fault),
            Ok(first) => if at < first <= s.len() {
                items(s, at, first, sigil, Seq::empty())
            } else {
                Err(at)
            },
        }
    } else if is_quote(s[at]) {
        string(s, at, sigil)
    } else if s[at] == '-' || is_digit(s[at]) {
        number(s, at)
    } else {
        keyword(s, at)
    }
}

/// What follows a member or an element at `at`: the offset of the next one
/// behind a comma, or of the closing bracket `close`.
pub open spec fn separator(s: Seq<char>, at: int, close: char) -> Result<int, int> {
    match skip(s, at) {
        Err(fault) => Err(fault),
        Ok(next) => if has(s, next, ',') {
            skip(s, next + 1)
        } else if has(s, next, close) {
            Ok(next)
        } else {
            Err(next)
        },
    }
}

/// The array opened at `open`, whose elements are `done` and those written
/// from `at` on: values with commas between them, and a comma or none behind
/// the last.
pub open spec fn items(s: Seq<char>, open: int, at: int, sigil: char, done: Seq<Tree>) -> Lexed
    decreases s.len() - at, 2nat,
{
    if at < 0 || at >= s.len() {
        Err(s.len() as int)
    } else if s[at] == ']' {
        Ok((Tree { rule: Rule::Array, start: open, end: at + 1, children: done }, at + 1))
    } else {
        match value(s, at, sigil) {
            Err(fault) => Err(fault),
            Ok((element, behind)) => match separator(s, behind, ']') {
                Err(fault) => Err(fault),
                Ok(next) => if at < next <= s.len() {
                    items(s, open, next, sigil, done.push(element))
                } else {
                    Err(at)
                },
            },
        }
    }
}

/// The member at `at`: a key, a colon and a value.
pub open spec fn member(s: Seq<char>, at: int, sigil: char) -> Lexed
    decreases s.len() - at, 2nat,
{
    match key(s, at, sigil) {
        Err(fault) => Err(fault),
        Ok((name, behind)) => match skip(s, behind) {
            Err(fault) => Err(fault),
            Ok(colon) => if has(s, colon, ':') {
                match skip(s, colon + 1) {
                    Err(fault) => Err(fault),
                    Ok(start) => if at < start <= s.len() {
                        match value(s, start, sigil) {
                            Err(fault) => Err(fault),
                            Ok((held, end)) => Ok(
                                (
                                    Tree {
                                        rule: Rule::Pair,
                                        start: at,
                                        end,
                                        children: seq![name, held],
                                    },
                                    end,
                                ),
                            ),
                        }
                    } else {
                        Err(at)
                    },
                }
            } else {
                Err(colon)
            },
        },
    }
}

/// The object opened at `open`, whose members are `done` and those written
/// from `at` on, with commas between them, and a comma or none behind the
/// last.
pub open spec fn members(s: Seq<char>, open: int, at: int, sigil: char, done: Seq<Tree>) -> Lexed
    decreases s.len() - at, 3nat,
{
    if at < 0 || at >= s.len() {
        Err(s.len() as int)
    } else if s[at] == '}' {
        Ok((Tree { rule: Rule::Object, start: open, end: at + 1, children: done }, at + 1))
    } else {
        match member(s, at, sigil) {
            Err(fault) => Err(fault),
            Ok((pair, behind)) => match separator(s, behind, '}') {
                Err(fault) => Err(fault),
                Ok(next) => if at < next <= s.len() {
                    members(s, open, next, sigil, done.push(pair))
                } else {
                    Err(at)
                },
            },
        }
    }
}

/// The tree of a document: one object or one array, with nothing but blanks
/// and comments around it.
pub open spec fn document(s: Seq<char>, sigil: char) -> Result<Tree, int> {
    match skip(s, 0) {
        Err(fault) => Err(fault),
        Ok(start) => if has(s, start, '{') || has(s, start, '[') {
            match value(s, start, sigil) {
                Err(fault) => Err(fault),
                Ok((root, behind)) => match skip(s, behind) {
                    Err(fault) => Err(fault),
                    Ok(end) => if end >= s.len() {
                        Ok(root)
                    } else {
                        Err(end)
                    },
                },
            }
        } else {
            Err(start)
        },
    }
}

/// What a function that reads a production at `at` hands back, against what
/// the grammar says: the same node and offset, with a tree of the grammar's
/// shape that starts at `at` and is not empty; or the same fault.
pub open spec fn lexed_as(r: Result<(Node, usize), usize>, by: Lexed, src: Seq<char>, at: int) -> bool {
    match by {
        Ok((tree, behind)) => {
            &&& r matches Ok((node, end))
            &&& node@ == tree
            &&& end == behind
            &&& tree.wf(src)
            &&& tree.start == at
            &&& tree.end == behind
            &&& at < behind <= src.len()
        },
        Err(fault) => r matches Err(e) && e == fault,
    }
}

/// Whether `c` is of the kind `of`.
fn in_class(of: Class, c: char) -> (r: bool)
    ensures
        r == of.holds(c),
{
    let digit = '0' <= c && c <= '9';
    match of {
        Class::Digit => digit,
        Class::Bare => digit || ('a' <= c && c <= 'z') || ('A' <= c && c <= 'Z') || c == '_' || c
            == '-',
        Class::Target => c != '{' && c != '}' && c != '\\' && c != '"' && c != '\'' && c != '`',
    }
}

/// The offset behind the run of characters of the kind `of` that starts at
/// `at`.
fn scan_run(src: &Vec<char>, at: usize, of: Class) -> (r: usize)
    ensures
        r == run_end(src@, at as int, of),
        at <= r,
        r <= src.len() || r == at,
        forall|k: int| at <= k < r ==> of.holds(#[trigger] src@[k]),
{
    let mut i: usize = at;
    while i < src.len() && in_class(of, src[i])
        invariant
            at <= i,
            i <= src.len() || i == at,
            run_end(src@, i as int, of) == run_end(src@, at as int, of),
            forall|k: int| at <= k < i ==> of.holds(#[trigger] src@[k]),
        decreases src.len() - i,
    {
        i += 1;
    }
    i
}

/// The offset of the first token from `at` on.
fn skip_blanks(src: &Vec<char>, at: usize) -> (r: Result<usize, usize>)
    requires
        at <= src.len(),
    ensures
        match skip(src@, at as int) {
            Ok(next) => r matches Ok(n) && n == next && at <= n <= src.len(),
            Err(fault) => r matches Err(e) && e == fault,
        },
{
    let n = src.len();
    let mut i: usize = at;
    loop
        invariant
            at <= i <= n,
            n == src.len(),
            skip(src@, i as int) == skip(src@, at as int),
        decreases n - i,
    {
        if i >= n {
            return Ok(i);
        }
        let c = src[i];
        if c == ' ' || c == '\t' || c == '\r' || c == '\n' {
            i += 1;
        } else if c == '/' && i + 1 < n && src[i + 1] == '*' {
            let mut j: usize = i + 2;
            let mut found = false;
            while !found && n - j >= 2
                invariant
                    i + 2 <= j <= n,
                    n == src.len(),
                    !found ==> comment_end(src@, j as int) == comment_end(src@, i + 2),
                    found ==> comment_end(src@, i + 2) == Some(j as int),
                decreases n - j, !found as int,
            {
                if src[j] == '*' && src[j + 1] == '/' {
                    found = true;
                    j += 2;
                } else {
                    j += 1;
                }
            }
            if !found {
                return Err(n);
            }
            i = j;
        } else if c == '/' && i + 1 < n && src[i + 1] == '/' {
            let mut j: usize = i + 2;
            while j < n && src[j] != '\n'
                invariant
                    i + 2 <= j <= n,
                    n == src.len(),
                    line_end(src@, j as int) == line_end(src@, i + 2),
                decreases n - j,
            {
                j += 1;
            }
            i = j;
        } else {
            return Ok(i);
        }
    }
}

/// Whether `src` holds the word `word` at offset `at`.
fn holds_word(src: &Vec<char>, at: usize, word: &Vec<char>) -> (r: bool)
    requires
        at <= src.len(),
    ensures
        r == word_at(src@, at as int, word@),
{
    crate::text::token_at(src, word, at)
}

/// Reads `true`, `false` or `null` at `at`.
fn lex_keyword(src: &Vec<char>, at: usize) -> (r: Result<(Node, usize), usize>)
    requires
        at <= src.len(),
    ensures
        lexed_as(r, keyword(src@, at as int), src@, at as int),
{
    let yes = vec!['t', 'r', 'u', 'e'];
    let no = vec!['f', 'a', 'l', 's', 'e'];
    let nothing = vec!['n', 'u', 'l', 'l'];
    assert(yes@ == seq!['t', 'r', 'u', 'e']);
    assert(no@ == seq!['f', 'a', 'l', 's', 'e']);
    assert(nothing@ == seq!['n', 'u', 'l', 'l']);
    if holds_word(src, at, &yes) {
        Ok((new_leaf(Rule::Bool, at, at + 4), at + 4))
    } else if holds_word(src, at, &no) {
        Ok((new_leaf(Rule::Bool, at, at + 5), at + 5))
    } else if holds_word(src, at, &nothing) {
        Ok((new_leaf(Rule::Null, at, at + 4), at + 4))
    } else {
        Err(at)
    }
}

/// A node without children.
fn new_leaf(rule: Rule, start: usize, end: usize) -> (r: Node)
    ensures
        r@ == leaf(rule, start as int, end as int),
        r.rule == rule,
        r.start == start,
        r.end == end,
        r.children@.len() == 0,
{
    let node = Node { rule, start, end, children: Vec::new() };
    assert(node@.children =~= Seq::<Tree>::empty());
    node
}

/// Whether a digit stands at `at`.
fn is_digit_at(src: &Vec<char>, at: usize) -> (r: bool)
    ensures
        r == (at < src.len() && is_digit(src@[at as int])),
{
    at < src.len() && '0' <= src[at] && src[at] <= '9'
}

/// Whether `c` stands at `at`.
fn has_at(src: &Vec<char>, at: usize, c: char) -> (r: bool)
    ensures
        r == has(src@, at as int, c),
{
    at < src.len() && src[at] == c
}

/// Reads the number at `at`.
fn lex_number(src: &Vec<char>, at: usize) -> (r: Result<(Node, usize), usize>)
    requires
        at < src.len(),
        src@[at as int] == '-' || is_digit(src@[at as int]),
    ensures
        lexed_as(r, number(src@, at as int), src@, at as int),
{
    let first = if has_at(src, at, '-') {
        at + 1
    } else {
        at
    };
    let whole = if has_at(src, first, '0') {
        first + 1
    } else if is_digit_at(src, first) {
        scan_run(src, first + 1, Class::Digit)
    } else {
        return Err(first);
    };
    let fraction = if has_at(src, whole, '.') {
        if is_digit_at(src, whole + 1) {
            scan_run(src, whole + 2, Class::Digit)
        } else {
            return Err(whole + 1);
        }
    } else {
        whole
    };
    let end = if has_at(src, fraction, 'e') || has_at(src, fraction, 'E') {
        let digits = if has_at(src, fraction + 1, '+') || has_at(src, fraction + 1, '-') {
            fraction + 2
        } else {
            fraction + 1
        };
        if is_digit_at(src, digits) {
            scan_run(src, digits + 1, Class::Digit)
        } else {
            return Err(digits);
        }
    } else {
        fraction
    };
    Ok((new_leaf(Rule::Number, at, end), end))
}

/// The trees of `nodes` have the grammar's shape, lie between `low` and
/// `high`, and stand one after the other.
pub open spec fn siblings(nodes: Seq<Tree>, src: Seq<char>, low: int, high: int) -> bool {
    &&& forall|i: int|
        0 <= i < nodes.len() ==> (#[trigger] nodes[i]).wf(src) && low <= nodes[i].start
            && nodes[i].end <= high
    &&& forall|i: int, j: int|
        0 <= i < j < nodes.len() ==> (#[trigger] nodes[i]).end <= (#[trigger] nodes[j]).start
}

/// A node that starts behind its siblings can be added to them.
proof fn lemma_siblings_push(nodes: Seq<Tree>, node: Tree, src: Seq<char>, low: int, high: int, end: int)
    requires
        siblings(nodes, src, low, high),
        node.wf(src),
        low <= high <= node.start,
        node.end <= end,
    ensures
        siblings(nodes.push(node), src, low, end),
{
    let more = nodes.push(node);
    assert forall|i: int, j: int| 0 <= i < j < more.len() implies (#[trigger] more[i]).end <= (
    #[trigger] more[j]).start by {
        if j < nodes.len() {
            assert(more[i] == nodes[i] && more[j] == nodes[j]);
        } else {
            assert(more[i] == nodes[i]);
        }
    }
}

/// Adds `node` behind `nodes`.
fn push_node(nodes: &mut Vec<Node>, node: Node)
    ensures
        final(nodes)@ == old(nodes)@.push(node),
        trees(final(nodes)@) == trees(old(nodes)@).push(node@),
{
    nodes.push(node);
    assert(trees(nodes@) =~= trees(old(nodes)@).push(node@));
}

/// A node with the given children.
fn new_node(rule: Rule, start: usize, end: usize, children: Vec<Node>) -> (r: Node)
    ensures
        r@ == (Tree { rule, start: start as int, end: end as int, children: trees(children@) }),
        r.rule == rule,
        r.start == start,
        r.end == end,
{
    let node = Node { rule, start, end, children };
    proof {
        lemma_tree_of(node);
    }
    node
}

/// Whether a hexadecimal digit stands at `at`.
fn is_hex_at(src: &Vec<char>, at: usize) -> (r: bool)
    requires
        at < src.len(),
    ensures
        r == is_hex(src@[at as int]),
{
    let c = src[at];
    ('0' <= c && c <= '9') || ('a' <= c && c <= 'f') || ('A' <= c && c <= 'F')
}

/// Reads the escape sequence whose backslash stands at `at`.
fn lex_escape(src: &Vec<char>, at: usize) -> (r: Option<(Rule, usize)>)
    requires
        at < src.len(),
    ensures
        r == match escape_at(src@, at as int) {
            Some((rule, behind)) => Some((rule, behind as usize)),
            None => None,
        },
        r matches Some((rule, behind)) ==> rule.is_escape() && at < behind <= src.len()
            && escape_at(src@, at as int) == Some((rule, behind as int)),
{
    let n = src.len();
    if n - at < 2 {
        return None;
    }
    let c = src[at + 1];
    if c == '/' {
        Some((Rule::EscSlash, at + 2))
    } else if c == '\\' {
        Some((Rule::EscBackslash, at + 2))
    } else if c == 'r' {
        Some((Rule::EscCarriageReturn, at + 2))
    } else if c == 't' {
        Some((Rule::EscTab, at + 2))
    } else if c == '"' {
        Some((Rule::EscQuoteDouble, at + 2))
    } else if c == '\'' {
        Some((Rule::EscQuoteSingle, at + 2))
    } else if c == 'b' {
        Some((Rule::EscBackspace, at + 2))
    } else if c == 'f' {
        Some((Rule::EscFormFeed, at + 2))
    } else if c == 'n' {
        Some((Rule::EscNewLine, at + 2))
    } else if c == 'u' && n - at >= 6 && is_hex_at(src, at + 2) && is_hex_at(src, at + 3)
        && is_hex_at(src, at + 4) && is_hex_at(src, at + 5) {
        Some((Rule::EscUnicode, at + 6))
    } else {
        None
    }
}

/// Looks for a placeholder that starts at `at`, and gives the offset of its
/// closing brace.
fn find_placeholder(src: &Vec<char>, at: usize, sigil: char) -> (r: Option<usize>)
    requires
        at < src.len(),
    ensures
        r == match placeholder_at(src@, at as int, sigil) {
            Some(close) => Some(close as usize),
            None => None,
        },
        r matches Some(close) ==> at + 2 < close < src.len() && placeholder_at(
            src@,
            at as int,
            sigil,
        ) == Some(close as int),
{
    if src[at] == sigil && has_at(src, at + 1, '{') {
        let close = scan_run(src, at + 2, Class::Target);
        if close > at + 2 && has_at(src, close, '}') {
            Some(close)
        } else {
            None
        }
    } else {
        None
    }
}

/// Reads the run of text that starts at `at` in a string closed by `quote`.
fn lex_text_run(src: &Vec<char>, at: usize, quote: char, sigil: char) -> (r: Result<
    (Vec<Node>, usize),
    usize,
>)
    requires
        at <= src.len(),
    ensures
        match text_run(src@, at as int, quote, sigil, Seq::empty()) {
            Ok((escapes, behind)) => {
                &&& r matches Ok((nodes, end))
                &&& trees(nodes@) == escapes
                &&& end == behind
                &&& at <= end <= src.len()
                &&& siblings(escapes, src@, at as int, behind)
                &&& forall|i: int| 0 <= i < escapes.len() ==> (#[trigger] escapes[i]).rule.is_escape()
            },
            Err(fault) => r matches Err(e) && e == fault,
        },
{
    let n = src.len();
    let mut escapes: Vec<Node> = Vec::new();
    let mut i: usize = at;
    assert(trees(escapes@) =~= Seq::<Tree>::empty());
    loop
        invariant
            at <= i <= n,
            n == src.len(),
            text_run(src@, i as int, quote, sigil, trees(escapes@)) == text_run(
                src@,
                at as int,
                quote,
                sigil,
                Seq::empty(),
            ),
            siblings(trees(escapes@), src@, at as int, i as int),
            forall|k: int|
                0 <= k < escapes@.len() ==> (#[trigger] trees(escapes@)[k]).rule.is_escape(),
        decreases n - i,
    {
        if i >= n || src[i] == quote || find_placeholder(src, i, sigil).is_some() {
            return Ok((escapes, i));
        }
        if src[i] == '\\' {
            match lex_escape(src, i) {
                Some((rule, behind)) => {
                    let node = new_leaf(rule, i, behind);
                    proof {
                        lemma_siblings_push(
                            trees(escapes@),
                            node@,
                            src@,
                            at as int,
                            i as int,
                            behind as int,
                        );
                    }
                    push_node(&mut escapes, node);
                    i = behind;
                },
                None => {
                    return Err(i);
                },
            }
        } else {
            i += 1;
        }
    }
}

/// Reads the string whose opening quote stands at `at`.
fn lex_string(src: &Vec<char>, at: usize, sigil: char) -> (r: Result<(Node, usize), usize>)
    requires
        at < src.len(),
        is_quote(src@[at as int]),
    ensures
        lexed_as(r, string(src@, at as int, sigil), src@, at as int),
{
    let n = src.len();
    let quote = src[at];
    let mut children: Vec<Node> = Vec::new();
    let mut i: usize = at + 1;
    assert(trees(children@) =~= Seq::<Tree>::empty());
    loop
        invariant
            at < i <= n,
            n == src.len(),
            quote == src@[at as int],
            is_quote(quote),
            pieces(src@, i as int, quote, sigil, trees(children@)) == pieces(
                src@,
                at + 1,
                quote,
                sigil,
                Seq::empty(),
            ),
            siblings(trees(children@), src@, at + 1, i as int),
            forall|k: int|
                0 <= k < children@.len() ==> (#[trigger] trees(children@)[k]).rule == Rule::Text
                    || trees(children@)[k].rule == Rule::Reference,
        decreases n - i,
    {
        if i >= n {
            return Err(n);
        }
        if src[i] == quote {
            let node = new_node(Rule::String, at, i + 1, children);
            assert(node@.quoted(src@));
            assert(node@.wf(src@));
            return Ok((node, i + 1));
        }
        match find_placeholder(src, i, sigil) {
            Some(close) => {
                let node = new_leaf(Rule::Reference, i + 2, close);
                proof {
                    lemma_siblings_push(
                        trees(children@),
                        node@,
                        src@,
                        at + 1,
                        i as int,
                        close + 1,
                    );
                }
                push_node(&mut children, node);
                i = close + 1;
            },
            None => {
                match lex_text_run(src, i, quote, sigil) {
                    Err(e) => {
                        return Err(e);
                    },
                    Ok((escapes, behind)) => {
                        if behind <= i {
                            return Err(i);
                        }
                        let node = new_node(Rule::Text, i, behind, escapes);
                        proof {
                            assert(node@.wf(src@));
                            lemma_siblings_push(
                                trees(children@),
                                node@,
                                src@,
                                at + 1,
                                i as int,
                                behind as int,
                            );
                        }
                        push_node(&mut children, node);
                        i = behind;
                    },
                }
            },
        }
    }
}

/// Reads the key at `at`.
fn lex_key(src: &Vec<char>, at: usize, sigil: char) -> (r: Result<(Node, usize), usize>)
    requires
        at <= src.len(),
    ensures
        lexed_as(r, key(src@, at as int, sigil), src@, at as int),
{
    if at < src.len() && (src[at] == '"' || src[at] == '\'' || src[at] == '`') {
        lex_string(src, at, sigil)
    } else {
        let end = scan_run(src, at, Class::Bare);
        if end > at {
            let text = new_leaf(Rule::Text, at, end);
            let mut children: Vec<Node> = Vec::new();
            assert(trees(children@) =~= Seq::<Tree>::empty());
            push_node(&mut children, text);
            let node = new_node(Rule::String, at, end, children);
            proof {
                assert(trees(children@) =~= seq![leaf(Rule::Text, at as int, end as int)]);
                assert(leaf(Rule::Text, at as int, end as int).wf(src@));
                assert(Class::Bare.holds(src@[at as int]));
                assert(!node@.quoted(src@));
                assert(node@.wf(src@));
            }
            Ok((node, end))
        } else {
            Err(at)
        }
    }
}

/// Reads what follows a member or an element at `at`.
fn lex_separator(src: &Vec<char>, at: usize, close: char) -> (r: Result<usize, usize>)
    requires
        at <= src.len(),
    ensures
        match separator(src@, at as int, close) {
            Ok(next) => r matches Ok(n) && n == next && at <= n <= src.len(),
            Err(fault) => r matches Err(e) && e == fault,
        },
{
    match skip_blanks(src, at) {
        Err(e) => Err(e),
        Ok(next) => {
            if has_at(src, next, ',') {
                skip_blanks(src, next + 1)
            } else if has_at(src, next, close) {
                Ok(next)
            } else {
                Err(next)
            }
        },
    }
}

/// Reads the value at `at`.
fn lex_value(src: &Vec<char>, at: usize, sigil: char) -> (r: Result<(Node, usize), usize>)
    requires
        at <= src.len(),
    ensures
        lexed_as(r, value(src@, at as int, sigil), src@, at as int),
        r matches Ok((node, _)) ==> node.rule.is_value(),
        r matches Ok((node, _)) ==> (has(src@, at as int, '{') ==> node.rule == Rule::Object),
        r matches Ok((node, _)) ==> (has(src@, at as int, '[') ==> node.rule == Rule::Array),
    decreases src.len() - at, 1nat,
{
    if at >= src.len() {
        return Err(at);
    }
    let c = src[at];
    if c == '{' {
        match skip_blanks(src, at + 1) {
            Err(e) => Err(e),
            Ok(first) => lex_members(src, at, first, sigil),
        }
    } else if c == '[' {
        match skip_blanks(src, at + 1) {
            Err(e) => Err(e),
            Ok(first) => lex_items(src, at, first, sigil),
        }
    } else if c == '"' || c == '\'' || c == '`' {
        lex_string(src, at, sigil)
    } else if c == '-' || ('0' <= c && c <= '9') {
        lex_number(src, at)
    } else {
        lex_keyword(src, at)
    }
}

/// Reads the elements of the array opened at `open`, from `at` on, and its
/// closing bracket.
fn lex_items(src: &Vec<char>, open: usize, at: usize, sigil: char) -> (r: Result<(Node, usize), usize>)
    requires
        open < at <= src.len(),
    ensures
        lexed_as(r, items(src@, open as int, at as int, sigil, Seq::empty()), src@, open as int),
        r matches Ok((node, _)) ==> node.rule == Rule::Array,
    decreases src.len() - at, 2nat,
{
    let n = src.len();
    let mut done: Vec<Node> = Vec::new();
    let mut i: usize = at;
    assert(trees(done@) =~= Seq::<Tree>::empty());
    loop
        invariant
            open < at <= i <= n,
            n == src.len(),
            items(src@, open as int, i as int, sigil, trees(done@)) == items(
                src@,
                open as int,
                at as int,
                sigil,
                Seq::empty(),
            ),
            siblings(trees(done@), src@, open + 1, i as int),
            forall|k: int| 0 <= k < done@.len() ==> (#[trigger] trees(done@)[k]).rule.is_value(),
        decreases n - i,
    {
        if i >= n {
            return Err(n);
        }
        if src[i] == ']' {
            let node = new_node(Rule::Array, open, i + 1, done);
            assert(node@.wf(src@));
            return Ok((node, i + 1));
        }
        match lex_value(src, i, sigil) {
            Err(e) => {
                return Err(e);
            },
            Ok((element, behind)) => {
                match lex_separator(src, behind, ']') {
                    Err(e) => {
                        return Err(e);
                    },
                    Ok(next) => {
                        proof {
                            lemma_siblings_push(
                                trees(done@),
                                element@,
                                src@,
                                open + 1,
                                i as int,
                                next as int,
                            );
                        }
                        push_node(&mut done, element);
                        i = next;
                    },
                }
            },
        }
    }
}

/// Reads the member at `at`.
fn lex_member(src: &Vec<char>, at: usize, sigil: char) -> (r: Result<(Node, usize), usize>)
    requires
        at <= src.len(),
    ensures
        lexed_as(r, member(src@, at as int, sigil), src@, at as int),
        r matches Ok((node, _)) ==> node.rule == Rule::Pair,
    decreases src.len() - at, 2nat,
{
    match lex_key(src, at, sigil) {
        Err(e) => Err(e),
        Ok((name, behind)) => match skip_blanks(src, behind) {
            Err(e) => Err(e),
            Ok(colon) => {
                if !has_at(src, colon, ':') {
                    return Err(colon);
                }
                match skip_blanks(src, colon + 1) {
                    Err(e) => Err(e),
                    Ok(start) => match lex_value(src, start, sigil) {
                        Err(e) => Err(e),
                        Ok((held, end)) => {
                            let ghost first = name@;
                            let ghost second = held@;
                            let mut children: Vec<Node> = Vec::new();
                            assert(trees(children@) =~= Seq::<Tree>::empty());
                            push_node(&mut children, name);
                            push_node(&mut children, held);
                            let node = new_node(Rule::Pair, at, end, children);
                            proof {
                                assert(node@.children =~= seq![first, second]);
                                assert(node@.wf(src@));
                            }
                            Ok((node, end))
                        },
                    },
                }
            },
        },
    }
}

/// Reads the members of the object opened at `open`, from `at` on, and its
/// closing brace.
fn lex_members(src: &Vec<char>, open: usize, at: usize, sigil: char) -> (r: Result<(Node, usize), usize>)
    requires
        open < at <= src.len(),
    ensures
        lexed_as(r, members(src@, open as int, at as int, sigil, Seq::empty()), src@, open as int),
        r matches Ok((node, _)) ==> node.rule == Rule::Object,
    decreases src.len() - at, 3nat,
{
    let n = src.len();
    let mut done: Vec<Node> = Vec::new();
    let mut i: usize = at;
    assert(trees(done@) =~= Seq::<Tree>::empty());
    loop
        invariant
            open < at <= i <= n,
            n == src.len(),
            members(src@, open as int, i as int, sigil, trees(done@)) == members(
                src@,
                open as int,
                at as int,
                sigil,
                Seq::empty(),
            ),
            siblings(trees(done@), src@, open + 1, i as int),
            forall|k: int| 0 <= k < done@.len() ==> (#[trigger] trees(done@)[k]).rule == Rule::Pair,
        decreases n - i,
    {
        if i >= n {
            return Err(n);
        }
        if src[i] == '}' {
            let node = new_node(Rule::Object, open, i + 1, done);
            assert(node@.wf(src@));
            return Ok((node, i + 1));
        }
        match lex_member(src, i, sigil) {
            Err(e) => {
                return Err(e);
            },
            Ok((pair, behind)) => {
                match lex_separator(src, behind, '}') {
                    Err(e) => {
                        return Err(e);
                    },
                    Ok(next) => {
                        proof {
                            lemma_siblings_push(
                                trees(done@),
                                pair@,
                                src@,
                                open + 1,
                                i as int,
                                next as int,
                            );
                        }
                        push_node(&mut done, pair);
                        i = next;
                    },
                }
            },
        }
    }
}

/// Cuts the text `src` of a document into its tree. Placeholders in strings
/// start with `sigil`.
pub fn tokenize(src: &Vec<char>, sigil: char) -> (r: Result<Node, Error>)
    ensures
        match document(src@, sigil) {
            Ok(tree) => {
                &&& r matches Ok(node)
                &&& node@ == tree
                &&& tree.wf(src@)
                &&& (tree.rule == Rule::Object || tree.rule == Rule::Array)
            },
            Err(fault) => r matches Err(e) && e@ == Fault::Syntax(fault),
        },
{
    match skip_blanks(src, 0) {
        Err(e) => Err(Error::Syntax(e)),
        Ok(start) => {
            if !(has_at(src, start, '{') || has_at(src, start, '[')) {
                return Err(Error::Syntax(start));
            }
            match lex_value(src, start, sigil) {
                Err(e) => Err(Error::Syntax(e)),
                Ok((root, behind)) => match skip_blanks(src, behind) {
                    Err(e) => Err(Error::Syntax(e)),
                    Ok(end) => {
                        if end >= src.len() {
                            Ok(root)
                        } else {
                            Err(Error::Syntax(end))
                        }
                    },
                },
            }
        },
    }
}

} // verus!
