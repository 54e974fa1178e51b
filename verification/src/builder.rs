//! From the tagged tree to values: strings are freed of their quotes and
//! escape sequences, placeholders are recorded, objects are checked for
//! repeated keys.

use std::str::FromStr;
use vstd::prelude::*;
use vstd::string::*;
use crate::context::{groups, links, record, record_all, Context, Link, Reference, State};
use crate::error::{Error, Fault};
use crate::text::{join, join_path, string_from, texts, to_chars};
use crate::tokenizer::{is_quote, lemma_tree_of, trees, Node, Rule, Tree};
use crate::value::{find_key, items_model, lemma_json_of, members_model, Json, Value};

verus! {

/// `char::from_u32` gives the character with the given code, where the code
/// is a Unicode scalar value, and nothing else.
pub assume_specification[ char::from_u32 ](code: u32) -> (r: Option<char>)
    ensures
        r == (if is_scalar(code as int) {
            Some(code as char)
        } else {
            None::<char>
        }),
;

/// The codes of the Unicode scalar values.
pub open spec fn is_scalar(code: int) -> bool {
    0 <= code <= 0xD7FF || 0xE000 <= code <= 0x10FFFF
}

/// The value of a hexadecimal digit.
pub open spec fn hex_value(c: char) -> Option<int> {
    if '0' <= c <= '9' {
        Some(c as int - '0' as int)
    } else if 'a' <= c <= 'f' {
        Some(c as int - 'a' as int + 10)
    } else if 'A' <= c <= 'F' {
        Some(c as int - 'A' as int + 10)
    } else {
        None
    }
}

/// What stands behind the two characters that open a `\u` escape.
pub open spec fn unicode_digits(text: Seq<char>) -> Seq<char> {
    if text.len() >= 2 {
        text.subrange(2, text.len() as int)
    } else {
        Seq::empty()
    }
}

/// The number that four hexadecimal digits write.
pub open spec fn unicode_code(digits: Seq<char>) -> Option<int> {
    if digits.len() == 4 && hex_value(digits[0]) is Some && hex_value(digits[1]) is Some
        && hex_value(digits[2]) is Some && hex_value(digits[3]) is Some {
        Some(
            ((hex_value(digits[0])->0 * 16 + hex_value(digits[1])->0) * 16 + hex_value(
                digits[2],
            )->0) * 16 + hex_value(digits[3])->0,
        )
    } else {
        None
    }
}

/// The character that a `\u` escape stands for: the one whose code its four
/// digits write.
pub open spec fn unicode_of(text: Seq<char>) -> Result<char, Fault> {
    match unicode_code(unicode_digits(text)) {
        Some(code) => if is_scalar(code) {
            Ok(code as char)
        } else {
            Err(Fault::InvalidUnicode(unicode_digits(text)))
        },
        None => Err(Fault::InvalidUnicode(unicode_digits(text))),
    }
}

/// The character that an escape sequence without digits stands for.
pub open spec fn escape_char(rule: Rule) -> Option<char> {
    match rule {
        Rule::EscSlash => Some('/'),
        Rule::EscBackslash => Some('\\'),
        Rule::EscCarriageReturn => Some('\r'),
        Rule::EscTab => Some('\t'),
        Rule::EscQuoteDouble => Some('"'),
        Rule::EscQuoteSingle => Some('\''),
        Rule::EscBackspace => Some('\u{8}'),
        Rule::EscFormFeed => Some('\u{c}'),
        Rule::EscNewLine => Some('\n'),
        _ => None,
    }
}

/// The character that the escape sequence `escape` stands for.
pub open spec fn decoded(src: Seq<char>, escape: Tree) -> Result<char, Fault> {
    match escape_char(escape.rule) {
        Some(c) => Ok(c),
        None => unicode_of(escape.text(src)),
    }
}

/// The text of `src` from `pos` to `end`, with each escape sequence from the
/// `from`-th on replaced, where it stands, by its character.
pub open spec fn unescape(src: Seq<char>, escapes: Seq<Tree>, from: int, pos: int, end: int) -> Result<
    Seq<char>,
    Fault,
>
    decreases escapes.len() - from,
{
    if from < 0 || from >= escapes.len() {
        Ok(src.subrange(pos, end))
    } else {
        match decoded(src, escapes[from]) {
            Err(fault) => Err(fault),
            Ok(c) => match unescape(src, escapes, from + 1, escapes[from].end, end) {
                Err(fault) => Err(fault),
                Ok(rest) => Ok(src.subrange(pos, escapes[from].start).push(c) + rest),
            },
        }
    }
}

/// What a string holds from `pos` to `end`, read through its children from the
/// `from`-th on, and the targets of the placeholders met before the first
/// fault. Placeholders stay in the text as they are written; in a key, where
/// `allow` is false, a placeholder is a fault.
pub open spec fn string_walk(
    src: Seq<char>,
    children: Seq<Tree>,
    from: int,
    pos: int,
    end: int,
    allow: bool,
) -> (Result<Seq<char>, Fault>, Seq<Seq<char>>)
    decreases children.len() - from,
{
    if from < 0 || from >= children.len() {
        (Ok(src.subrange(pos, end)), Seq::empty())
    } else if children[from].rule == Rule::Reference {
        if allow {
            let rest = string_walk(src, children, from + 1, pos, end, allow);
            (rest.0, seq![children[from].text(src)] + rest.1)
        } else {
            (Err(Fault::ReferenceInKey), Seq::empty())
        }
    } else {
        match unescape(src, children[from].children, 0, pos, children[from].end) {
            Err(fault) => (Err(fault), Seq::empty()),
            Ok(text) => {
                let rest = string_walk(src, children, from + 1, children[from].end, end, allow);
                match rest.0 {
                    Ok(more) => (Ok(text + more), rest.1),
                    Err(fault) => (Err(fault), rest.1),
                }
            },
        }
    }
}

/// What the string `string` holds, without its quotes and with its escape
/// sequences replaced, and the targets of its placeholders.
pub open spec fn decode(src: Seq<char>, string: Tree, allow: bool) -> (
    Result<Seq<char>, Fault>,
    Seq<Seq<char>>,
) {
    string_walk(
        src,
        string.children,
        0,
        string.content_start(src),
        string.content_end(src),
        allow,
    )
}

/// The links for the targets met in a string at `location`.
pub open spec fn links_at(targets: Seq<Seq<char>>, location: Seq<Seq<char>>) -> Seq<Link> {
    Seq::new(
        targets.len(),
        |i: int| Link { target: targets[i], value: None, location: join(location, '.') },
    )
}

/// The number that `serde_json` reads from `text`, where `text` is the
/// literal of a number and nothing else.
pub uninterp spec fn number_literal(text: Seq<char>) -> Option<serde_json::Number>;

/// The value of the literal of a boolean.
pub open spec fn bool_of(text: Seq<char>) -> Result<Json, Fault> {
    if text == seq!['t', 'r', 'u', 'e'] {
        Ok(Json::Bool(true))
    } else if text == seq!['f', 'a', 'l', 's', 'e'] {
        Ok(Json::Bool(false))
    } else {
        Err(Fault::Literal(text))
    }
}

/// The value of a number literal, given the number that `serde_json` made of
/// it, or that it made none.
pub open spec fn number_from(parsed: Option<serde_json::Number>, text: Seq<char>) -> Result<Json, Fault> {
    match parsed {
        Some(n) => Ok(Json::Number(n)),
        None => Err(Fault::Literal(text)),
    }
}

/// The value of the literal of a number.
pub open spec fn number_of(text: Seq<char>) -> Result<Json, Fault> {
    number_from(number_literal(text), text)
}

/// What building a node comes to: its value, or why there is none, and the
/// links of the placeholders met on the way, in the order of the text, up to
/// the fault if there is one.
pub struct Built {
    pub result: Result<Json, Fault>,
    pub found: Seq<Link>,
}

/// What building the value node `t` comes to at `location`, the keys of the
/// objects around it.
pub open spec fn build(src: Seq<char>, t: Tree, location: Seq<Seq<char>>) -> Built
    decreases t, 0nat,
{
    match t.rule {
        Rule::Bool => Built { result: bool_of(t.text(src)), found: Seq::empty() },
        Rule::Number => Built { result: number_of(t.text(src)), found: Seq::empty() },
        Rule::String => {
            let read = decode(src, t, true);
            Built {
                result: match read.0 {
                    Ok(text) => Ok(Json::String(text)),
                    Err(fault) => Err(fault),
                },
                found: links_at(read.1, location),
            }
        },
        Rule::Object => {
            let inner = build_members(src, t.children, location, 0, Seq::empty());
            Built {
                result: match inner.0 {
                    Ok(members) => Ok(Json::Object(members)),
                    Err(fault) => Err(fault),
                },
                found: inner.1,
            }
        },
        Rule::Array => {
            let inner = build_items(src, t.children, location, 0);
            Built {
                result: match inner.0 {
                    Ok(items) => Ok(Json::Array(items)),
                    Err(fault) => Err(fault),
                },
                found: inner.1,
            }
        },
        _ => Built { result: Ok(Json::Null), found: Seq::empty() },
    }
}

/// The values of the nodes from the `from`-th on, up to the first fault, and
/// the links met.
pub open spec fn build_items(src: Seq<char>, nodes: Seq<Tree>, location: Seq<Seq<char>>, from: int) -> (
    Result<Seq<Json>, Fault>,
    Seq<Link>,
)
    decreases nodes, nodes.len() - from,
{
    if from < 0 || from >= nodes.len() {
        (Ok(Seq::empty()), Seq::empty())
    } else {
        let first = build(src, nodes[from], location);
        match first.result {
            Err(fault) => (Err(fault), first.found),
            Ok(value) => {
                let rest = build_items(src, nodes, location, from + 1);
                (
                    match rest.0 {
                        Ok(values) => Ok(seq![value] + values),
                        Err(fault) => Err(fault),
                    },
                    first.found + rest.1,
                )
            },
        }
    }
}

/// The members of an object, `done` followed by those that the pairs from the
/// `from`-th on stand for, up to the first fault, and the links met. Each
/// value is built with its key added to the location; a key that a member
/// before it has is a fault, found after the value has been built.
pub open spec fn build_members(
    src: Seq<char>,
    pairs: Seq<Tree>,
    location: Seq<Seq<char>>,
    from: int,
    done: Seq<(Seq<char>, Json)>,
) -> (Result<Seq<(Seq<char>, Json)>, Fault>, Seq<Link>)
    decreases pairs, pairs.len() - from,
{
    if from < 0 || from >= pairs.len() {
        (Ok(done), Seq::empty())
    } else if pairs[from].children.len() != 2 {
        (Ok(done), Seq::empty())
    } else {
        match decode(src, pairs[from].children[0], false).0 {
            Err(fault) => (Err(fault), Seq::empty()),
            Ok(key) => {
                let inner = build(src, pairs[from].children[1], location.push(key));
                match inner.result {
                    Err(fault) => (Err(fault), inner.found),
                    Ok(value) => if find_key(done, key, 0) is Some {
                        (Err(Fault::DuplicateKey(key)), inner.found)
                    } else {
                        let rest = build_members(
                            src,
                            pairs,
                            location,
                            from + 1,
                            done.push((key, value)),
                        );
                        (rest.0, inner.found + rest.1)
                    },
                }
            },
        }
    }
}

/// A string in which placeholders are not allowed records none.
pub proof fn lemma_key_records_nothing(src: Seq<char>, children: Seq<Tree>, from: int, pos: int, end: int)
    ensures
        string_walk(src, children, from, pos, end, false).1 == Seq::<Seq<char>>::empty(),
    decreases children.len() - from,
{
    if 0 <= from < children.len() && children[from].rule != Rule::Reference {
        lemma_key_records_nothing(src, children, from + 1, children[from].end, end);
    }
}

/// By how much the text gets shorter when the escape sequences from `from`
/// up to `upto` are replaced: each by its length less the one character that
/// takes its place.
pub open spec fn shrink(escapes: Seq<Tree>, from: int, upto: int) -> int
    decreases upto - from,
{
    if from < 0 || from >= upto || from >= escapes.len() {
        0
    } else {
        escapes[from].end - escapes[from].start - 1 + shrink(escapes, from + 1, upto)
    }
}

/// The escape sequences from `from` on stand between `pos` and `end`, one
/// after the other.
pub open spec fn in_order(escapes: Seq<Tree>, from: int, pos: int, end: int) -> bool {
    &&& forall|k: int|
        from <= k < escapes.len() ==> pos <= (#[trigger] escapes[k]).start <= escapes[k].end <= end
    &&& forall|j: int, k: int|
        from <= j < k < escapes.len() ==> (#[trigger] escapes[j]).end <= (
        #[trigger] escapes[k]).start
}

/// Each escape sequence is replaced where it stands: its character is found in
/// the decoded text at the offset that the sequence has in the text as it is
/// written, less what the sequences before it have lost in length. So equal
/// sequences are each replaced once, at their own place.
pub proof fn lemma_unescape_keeps_positions(
    src: Seq<char>,
    escapes: Seq<Tree>,
    from: int,
    pos: int,
    end: int,
)
    requires
        0 <= from <= escapes.len(),
        0 <= pos <= end <= src.len(),
        in_order(escapes, from, pos, end),
        unescape(src, escapes, from, pos, end) is Ok,
    ensures
        ({
            let text = unescape(src, escapes, from, pos, end)->Ok_0;
            &&& text.len() == end - pos - shrink(escapes, from, escapes.len() as int)
            &&& forall|k: int|
                from <= k < escapes.len() ==> {
                    let at = (#[trigger] escapes[k]).start - pos - shrink(escapes, from, k);
                    &&& 0 <= at < text.len()
                    &&& decoded(src, escapes[k]) == Ok::<char, Fault>(text[at])
                }
        }),
    decreases escapes.len() - from,
{
    if from < escapes.len() {
        let first = escapes[from];
        let text = unescape(src, escapes, from, pos, end)->Ok_0;
        let rest = unescape(src, escapes, from + 1, first.end, end)->Ok_0;
        let c = decoded(src, first)->Ok_0;
        let head = src.subrange(pos, first.start).push(c);
        assert(text == head + rest);
        assert forall|k: int| from + 1 <= k < escapes.len() implies first.end <= (
        #[trigger] escapes[k]).start <= escapes[k].end <= end by {
            assert(escapes[from].end <= escapes[k].start);
        }
        lemma_unescape_keeps_positions(src, escapes, from + 1, first.end, end);
        assert forall|k: int| from <= k < escapes.len() implies {
            let at = (#[trigger] escapes[k]).start - pos - shrink(escapes, from, k);
            &&& 0 <= at < text.len()
            &&& decoded(src, escapes[k]) == Ok::<char, Fault>(text[at])
        } by {
            if k == from {
                assert(text[first.start - pos] == c);
            } else {
                assert(escapes[from].end <= escapes[k].start);
                let inner = escapes[k].start - first.end - shrink(escapes, from + 1, k);
                assert(text[head.len() + inner] == rest[inner]);
            }
        }
    }
}

/// No two of the members have the same key, and no object inside them holds
/// a key twice.
pub open spec fn distinct(members: Seq<(Seq<char>, Json)>) -> bool {
    &&& forall|i: int| 0 <= i < members.len() ==> (#[trigger] members[i]).1.wf()
    &&& forall|i: int, j: int|
        0 <= i < j < members.len() ==> (#[trigger] members[i]).0 != (#[trigger] members[j]).0
}

/// An object holds no key twice, in itself and in the objects inside it,
/// where its members are distinct.
pub proof fn lemma_object_wf(members: Seq<(Seq<char>, Json)>)
    ensures
        Json::Object(members).wf() == distinct(members),
{
    let node = Json::Object(members);
    match node {
        Json::Object(held) => {
            assert(held == members);
        },
        _ => {},
    }
}

/// A value that is built holds no key twice in any of its objects.
pub proof fn lemma_build_wf(src: Seq<char>, t: Tree, location: Seq<Seq<char>>)
    ensures
        build(src, t, location).result matches Ok(json) ==> json.wf(),
    decreases t, 0nat,
{
    match t.rule {
        Rule::Object => {
            lemma_build_members_wf(src, t.children, location, 0, Seq::empty());
            match build_members(src, t.children, location, 0, Seq::empty()).0 {
                Ok(members) => {
                    lemma_object_wf(members);
                },
                Err(_) => {},
            }
        },
        Rule::Array => {
            lemma_build_items_wf(src, t.children, location, 0);
        },
        _ => {},
    }
}

/// The elements that are built hold no key twice in any of their objects.
pub proof fn lemma_build_items_wf(src: Seq<char>, nodes: Seq<Tree>, location: Seq<Seq<char>>, from: int)
    ensures
        build_items(src, nodes, location, from).0 matches Ok(values) ==> forall|k: int|
            0 <= k < values.len() ==> (#[trigger] values[k]).wf(),
    decreases nodes, nodes.len() - from,
{
    if 0 <= from < nodes.len() {
        lemma_build_wf(src, nodes[from], location);
        lemma_build_items_wf(src, nodes, location, from + 1);
    }
}

/// The members that are built, behind members without a repeated key, are
/// without a repeated key.
pub proof fn lemma_build_members_wf(
    src: Seq<char>,
    pairs: Seq<Tree>,
    location: Seq<Seq<char>>,
    from: int,
    done: Seq<(Seq<char>, Json)>,
)
    requires
        distinct(done),
    ensures
        build_members(src, pairs, location, from, done).0 matches Ok(members) ==> distinct(members),
    decreases pairs, pairs.len() - from,
{
    if 0 <= from < pairs.len() && pairs[from].children.len() == 2 {
        match decode(src, pairs[from].children[0], false).0 {
            Err(_) => {},
            Ok(key) => {
                let inner = build(src, pairs[from].children[1], location.push(key));
                lemma_build_wf(src, pairs[from].children[1], location.push(key));
                match inner.result {
                    Err(_) => {},
                    Ok(value) => {
                        if find_key(done, key, 0) is None {
                            crate::value::lemma_find_key(done, key, 0);
                            let more = done.push((key, value));
                            assert(value.wf());
                            assert forall|i: int| 0 <= i < more.len() implies (
                            #[trigger] more[i]).1.wf() by {
                                if i < done.len() {
                                    assert(more[i] == done[i]);
                                    assert(done[i].1.wf());
                                } else {
                                    assert(more[i] == (key, value));
                                }
                            }
                            assert forall|i: int, j: int| 0 <= i < j < more.len() implies (
                            #[trigger] more[i]).0 != (#[trigger] more[j]).0 by {
                                assert(more[i] == done[i]);
                                if j < done.len() {
                                    assert(more[j] == done[j]);
                                    assert(done[i].0 != done[j].0);
                                } else {
                                    assert(more[j] == (key, value));
                                    assert(done[i].0 != key);
                                }
                            }
                            assert(distinct(more));
                            lemma_build_members_wf(src, pairs, location, from + 1, more);
                        }
                    },
                }
            },
        }
    }
}

/// The key of the `i`-th member, as it is read.
pub open spec fn member_key(src: Seq<char>, pairs: Seq<Tree>, i: int) -> Result<Seq<char>, Fault> {
    decode(src, pairs[i].children[0], false).0
}

/// The value of the `i`-th member, built below its key; the fault of the key
/// where the key cannot be read.
pub open spec fn member_value(src: Seq<char>, pairs: Seq<Tree>, location: Seq<Seq<char>>, i: int) -> Result<
    Json,
    Fault,
> {
    match member_key(src, pairs, i) {
        Ok(key) => build(src, pairs[i].children[1], location.push(key)).result,
        Err(fault) => Err(fault),
    }
}

/// The first `upto` members can all be read, and no two of them have the
/// same key.
pub open spec fn settled(src: Seq<char>, pairs: Seq<Tree>, location: Seq<Seq<char>>, upto: int) -> bool {
    &&& forall|i: int| 0 <= i < upto ==> (#[trigger] member_value(src, pairs, location, i)) is Ok
    &&& forall|a: int, b: int|
        0 <= a < b < upto ==> #[trigger] member_key(src, pairs, a) != #[trigger] member_key(
            src,
            pairs,
            b,
        )
}

/// The first `upto` members as they are read, each with its own value, in the
/// order of the text.
pub open spec fn members_read(src: Seq<char>, pairs: Seq<Tree>, location: Seq<Seq<char>>, upto: int) -> Seq<
    (Seq<char>, Json),
> {
    Seq::new(
        upto as nat,
        |i: int| (member_key(src, pairs, i)->Ok_0, member_value(src, pairs, location, i)->Ok_0),
    )
}

/// Why the `j`-th member ends the build, where the members before it are
/// settled and it is not: its own fault, or else that its key is repeated.
pub open spec fn fault_at(src: Seq<char>, pairs: Seq<Tree>, location: Seq<Seq<char>>, j: int) -> Fault {
    match member_value(src, pairs, location, j) {
        Err(fault) => fault,
        Ok(_) => Fault::DuplicateKey(member_key(src, pairs, j)->Ok_0),
    }
}

/// Each pair has a key and a value.
pub open spec fn paired(pairs: Seq<Tree>) -> bool {
    forall|i: int| 0 <= i < pairs.len() ==> (#[trigger] pairs[i]).children.len() == 2
}

/// No member read so far has the key of a member that is settled behind them.
proof fn lemma_settled_key_is_new(src: Seq<char>, pairs: Seq<Tree>, location: Seq<Seq<char>>, from: int)
    requires
        0 <= from,
        settled(src, pairs, location, from + 1),
    ensures
        find_key(members_read(src, pairs, location, from), member_key(src, pairs, from)->Ok_0, 0)
            is None,
{
    let done = members_read(src, pairs, location, from);
    let key = member_key(src, pairs, from)->Ok_0;
    crate::value::lemma_find_key(done, key, 0);
    if let Some(i) = find_key(done, key, 0) {
        assert(member_value(src, pairs, location, i) is Ok);
        assert(member_value(src, pairs, location, from) is Ok);
        assert(member_key(src, pairs, i) != member_key(src, pairs, from));
    }
}

/// The build from the `from`-th member on, behind settled members, ends at the
/// first member that is not settled, with that member's fault.
proof fn lemma_members_stop(
    src: Seq<char>,
    pairs: Seq<Tree>,
    location: Seq<Seq<char>>,
    from: int,
    j: int,
)
    requires
        paired(pairs),
        0 <= from <= j < pairs.len(),
        settled(src, pairs, location, j),
        !settled(src, pairs, location, j + 1),
    ensures
        build_members(src, pairs, location, from, members_read(src, pairs, location, from)).0
            == Err::<Seq<(Seq<char>, Json)>, Fault>(fault_at(src, pairs, location, j)),
    decreases j - from,
{
    let done = members_read(src, pairs, location, from);
    if from < j {
        assert(member_value(src, pairs, location, from) is Ok);
        assert(settled(src, pairs, location, from + 1)) by {
            assert forall|i: int| 0 <= i < from + 1 implies (#[trigger] member_value(
                src,
                pairs,
                location,
                i,
            )) is Ok by {}
        }
        lemma_settled_key_is_new(src, pairs, location, from);
        let key = member_key(src, pairs, from)->Ok_0;
        let value = member_value(src, pairs, location, from)->Ok_0;
        assert(done.push((key, value)) == members_read(src, pairs, location, from + 1));
        lemma_members_stop(src, pairs, location, from + 1, j);
    } else {
        if member_value(src, pairs, location, j) is Ok {
            let key = member_key(src, pairs, j)->Ok_0;
            let a = choose|a: int|
                0 <= a < j && #[trigger] member_key(src, pairs, a) == member_key(src, pairs, j);
            assert(0 <= a < j && member_key(src, pairs, a) == member_key(src, pairs, j)) by {
                if forall|a: int|
                    0 <= a < j ==> #[trigger] member_key(src, pairs, a) != member_key(
                        src,
                        pairs,
                        j,
                    ) {
                    assert forall|a: int, b: int| 0 <= a < b < j + 1 implies #[trigger] member_key(
                        src,
                        pairs,
                        a,
                    ) != #[trigger] member_key(src, pairs, b) by {}
                    assert forall|i: int| 0 <= i < j + 1 implies (#[trigger] member_value(
                        src,
                        pairs,
                        location,
                        i,
                    )) is Ok by {}
                    assert(settled(src, pairs, location, j + 1));
                }
            }
            assert(member_value(src, pairs, location, a) is Ok);
            assert(done[a].0 == key);
            crate::value::lemma_find_key(done, key, 0);
        }
    }
}

/// The build from the `from`-th member on, where all members are settled,
/// gives every member as it is read.
proof fn lemma_members_all(src: Seq<char>, pairs: Seq<Tree>, location: Seq<Seq<char>>, from: int)
    requires
        paired(pairs),
        0 <= from <= pairs.len(),
        settled(src, pairs, location, pairs.len() as int),
    ensures
        build_members(src, pairs, location, from, members_read(src, pairs, location, from)).0
            == Ok::<Seq<(Seq<char>, Json)>, Fault>(
            members_read(src, pairs, location, pairs.len() as int),
        ),
    decreases pairs.len() - from,
{
    let done = members_read(src, pairs, location, from);
    if from < pairs.len() {
        assert(member_value(src, pairs, location, from) is Ok);
        assert(settled(src, pairs, location, from + 1));
        lemma_settled_key_is_new(src, pairs, location, from);
        let key = member_key(src, pairs, from)->Ok_0;
        let value = member_value(src, pairs, location, from)->Ok_0;
        assert(done.push((key, value)) == members_read(src, pairs, location, from + 1));
        lemma_members_all(src, pairs, location, from + 1);
    }
}

/// Where not all members are settled, there is a first one that is not.
proof fn lemma_first_unsettled(src: Seq<char>, pairs: Seq<Tree>, location: Seq<Seq<char>>, upto: int) -> (j:
    int)
    requires
        0 <= upto,
        !settled(src, pairs, location, upto),
    ensures
        0 <= j < upto,
        settled(src, pairs, location, j),
        !settled(src, pairs, location, j + 1),
    decreases upto,
{
    if upto == 0 {
        assert(settled(src, pairs, location, 0));
        0
    } else if settled(src, pairs, location, upto - 1) {
        upto - 1
    } else {
        lemma_first_unsettled(src, pairs, location, upto - 1)
    }
}

/// What the members of an object come to. Where every member can be read and
/// no two have the same key, the object holds every member, with its own
/// value, in the order of the text. Otherwise the build ends at the first
/// member that cannot be read or that has the key of a member before it: with
/// that member's own fault, or else with the repeated key.
pub proof fn lemma_members_outcome(src: Seq<char>, pairs: Seq<Tree>, location: Seq<Seq<char>>)
    requires
        paired(pairs),
    ensures
        settled(src, pairs, location, pairs.len() as int) ==> build_members(
            src,
            pairs,
            location,
            0,
            Seq::empty(),
        ).0 == Ok::<Seq<(Seq<char>, Json)>, Fault>(
            members_read(src, pairs, location, pairs.len() as int),
        ),
        forall|j: int|
            0 <= j < pairs.len() && settled(src, pairs, location, j) && !#[trigger] settled(
                src,
                pairs,
                location,
                j + 1,
            ) ==> build_members(src, pairs, location, 0, Seq::empty()).0 == Err::<
                Seq<(Seq<char>, Json)>,
                Fault,
            >(fault_at(src, pairs, location, j)),
{
    assert(members_read(src, pairs, location, 0) == Seq::<(Seq<char>, Json)>::empty());
    if settled(src, pairs, location, pairs.len() as int) {
        lemma_members_all(src, pairs, location, 0);
    }
    assert forall|j: int|
        0 <= j < pairs.len() && settled(src, pairs, location, j) && !#[trigger] settled(
            src,
            pairs,
            location,
            j + 1,
        ) implies build_members(src, pairs, location, 0, Seq::empty()).0 == Err::<
        Seq<(Seq<char>, Json)>,
        Fault,
    >(fault_at(src, pairs, location, j)) by {
        lemma_members_stop(src, pairs, location, 0, j);
    }
}

/// An object whose members can each be read is refused if and only if two of
/// its members have the same key, whatever their quotes: the fault names the
/// key of the first member that repeats one. Where no key is repeated, every
/// member is kept with its own value: no value takes the place of another.
/// Keys of other objects, inside or beside this one, play no part.
pub proof fn lemma_duplicate_key(src: Seq<char>, pairs: Seq<Tree>, location: Seq<Seq<char>>)
    requires
        paired(pairs),
        forall|i: int|
            0 <= i < pairs.len() ==> (#[trigger] member_value(src, pairs, location, i)) is Ok,
    ensures
        ({
            let built = build_members(src, pairs, location, 0, Seq::empty()).0;
            let repeated = exists|a: int, b: int|
                0 <= a < b < pairs.len() && #[trigger] member_key(src, pairs, a)
                    == #[trigger] member_key(src, pairs, b);
            &&& built is Err <==> repeated
            &&& built matches Err(fault) ==> exists|a: int, b: int|
                0 <= a < b < pairs.len() && #[trigger] member_key(src, pairs, a)
                    == #[trigger] member_key(src, pairs, b) && fault == Fault::DuplicateKey(
                    member_key(src, pairs, b)->Ok_0,
                )
            &&& built matches Ok(members) ==> members == members_read(
                src,
                pairs,
                location,
                pairs.len() as int,
            )
        }),
{
    let n = pairs.len() as int;
    lemma_members_outcome(src, pairs, location);
    if settled(src, pairs, location, n) {
        assert forall|a: int, b: int| 0 <= a < b < n implies #[trigger] member_key(src, pairs, a)
            != #[trigger] member_key(src, pairs, b) by {}
    } else {
        let j = lemma_first_unsettled(src, pairs, location, n);
        assert(member_value(src, pairs, location, j) is Ok);
        let a = choose|a: int|
            0 <= a < j && #[trigger] member_key(src, pairs, a) == member_key(src, pairs, j);
        assert(0 <= a < j && member_key(src, pairs, a) == member_key(src, pairs, j)) by {
            if forall|a: int|
                0 <= a < j ==> #[trigger] member_key(src, pairs, a) != member_key(src, pairs, j) {
                assert forall|a: int, b: int| 0 <= a < b < j + 1 implies #[trigger] member_key(
                    src,
                    pairs,
                    a,
                ) != #[trigger] member_key(src, pairs, b) by {}
                assert(settled(src, pairs, location, j + 1));
            }
        }
    }
}

/// The value of a hexadecimal digit.
fn hex_digit(c: char) -> (r: Option<u32>)
    ensures
        match r {
            Some(v) => hex_value(c) == Some(v as int) && v < 16,
            None => hex_value(c) is None,
        },
{
    if '0' <= c && c <= '9' {
        Some(c as u32 - '0' as u32)
    } else if 'a' <= c && c <= 'f' {
        Some(c as u32 - 'a' as u32 + 10)
    } else if 'A' <= c && c <= 'F' {
        Some(c as u32 - 'A' as u32 + 10)
    } else {
        None
    }
}

/// The character that the escape sequence `string` stands for, `\u` and four
/// hexadecimal digits, as a string of its own.
pub fn parse_unicode(string: &str) -> (r: Result<String, Error>)
    ensures
        match r {
            Ok(s) => unicode_of(string@) == Ok::<char, Fault>(s@[0]) && s@.len() == 1,
            Err(e) => unicode_of(string@) == Err::<char, Fault>(e@),
        },
{
    let chars = to_chars(string);
    let n = chars.len();
    let digits = if n >= 2 {
        string_from(&chars, 2, n)
    } else {
        String::new()
    };
    if n != 6 {
        return Err(Error::InvalidUnicode(digits));
    }
    assert(unicode_digits(string@) =~= seq![chars@[2], chars@[3], chars@[4], chars@[5]]);
    let a = hex_digit(chars[2]);
    let b = hex_digit(chars[3]);
    let c = hex_digit(chars[4]);
    let d = hex_digit(chars[5]);
    match (a, b, c, d) {
        (Some(a), Some(b), Some(c), Some(d)) => {
            let code: u32 = ((a * 16 + b) * 16 + c) * 16 + d;
            match char::from_u32(code) {
                Some(found) => {
                    let mut out = String::new();
                    out.push(found);
                    Ok(out)
                },
                None => Err(Error::InvalidUnicode(digits)),
            }
        },
        _ => Err(Error::InvalidUnicode(digits)),
    }
}

/// Appends the characters of `src` from `start` up to `end` to `out`.
fn append_span(out: &mut String, src: &Vec<char>, start: usize, end: usize)
    requires
        start <= end <= src.len(),
    ensures
        final(out)@ == old(out)@ + src@.subrange(start as int, end as int),
{
    let mut i: usize = start;
    while i < end
        invariant
            start <= i <= end <= src.len(),
            out@ == old(out)@ + src@.subrange(start as int, i as int),
        decreases end - i,
    {
        out.push(src[i]);
        i += 1;
        assert(src@.subrange(start as int, i as int) == src@.subrange(start as int, i - 1).push(
            src@[i - 1],
        ));
    }
}

/// The character that the escape sequence `escape` stands for.
fn escape_character(src: &Vec<char>, escape: &Node) -> (r: Result<char, Error>)
    requires
        escape.start <= escape.end <= src.len(),
    ensures
        match r {
            Ok(c) => decoded(src@, escape@) == Ok::<char, Fault>(c),
            Err(e) => decoded(src@, escape@) == Err::<char, Fault>(e@),
        },
{
    match escape.rule {
        Rule::EscSlash => Ok('/'),
        Rule::EscBackslash => Ok('\\'),
        Rule::EscCarriageReturn => Ok('\r'),
        Rule::EscTab => Ok('\t'),
        Rule::EscQuoteDouble => Ok('"'),
        Rule::EscQuoteSingle => Ok('\''),
        Rule::EscBackspace => Ok('\u{8}'),
        Rule::EscFormFeed => Ok('\u{c}'),
        Rule::EscNewLine => Ok('\n'),
        _ => {
            let text = string_from(src, escape.start, escape.end);
            match parse_unicode(text.as_str()) {
                Ok(s) => Ok(s.as_str().get_char(0)),
                Err(e) => Err(e),
            }
        },
    }
}

/// Appends to `string` the text of `src` from `from` to the end of the run
/// `pair`, with each escape sequence of the run replaced, where it stands, by
/// its character. Where an escape sequence stands for no character, `string`
/// stays as it is.
pub fn replace_escape_in_string_pair(src: &Vec<char>, pair: &Node, string: &mut String, from: usize) -> (r:
    Result<(), Error>)
    requires
        pair@.wf(src@),
        from <= pair.start,
    ensures
        match unescape(src@, pair@.children, 0, from as int, pair.end as int) {
            Ok(text) => r is Ok && final(string)@ == old(string)@ + text,
            Err(fault) => r matches Err(e) && e@ == fault && final(string)@ == old(string)@,
        },
{
    proof {
        lemma_tree_of(*pair);
    }
    let mut out = String::new();
    let mut pos: usize = from;
    let mut i: usize = 0;
    while i < pair.children.len()
        invariant
            i <= pair.children.len(),
            pair@.wf(src@),
            pair@.children == trees(pair.children@),
            from <= pos <= pair.end,
            i > 0 ==> pos == pair.children@[i - 1].end,
            i == 0 ==> pos == from,
            from <= pair.start,
            match unescape(src@, pair@.children, i as int, pos as int, pair.end as int) {
                Ok(rest) => unescape(src@, pair@.children, 0, from as int, pair.end as int) == Ok::<
                    Seq<char>,
                    Fault,
                >(out@ + rest),
                Err(fault) => unescape(src@, pair@.children, 0, from as int, pair.end as int)
                    == Err::<Seq<char>, Fault>(fault),
            },
        decreases pair.children.len() - i,
    {
        let escape = &pair.children[i];
        assert(pair@.children[i as int] == escape@);
        assert(pair@.children[i as int].wf(src@));
        assert(i > 0 ==> pair@.children[i - 1].end <= pair@.children[i as int].start);
        match escape_character(src, escape) {
            Err(e) => {
                return Err(e);
            },
            Ok(c) => {
                let ghost before = out@;
                append_span(&mut out, src, pos, escape.start);
                out.push(c);
                proof {
                    let rest = unescape(
                        src@,
                        pair@.children,
                        i + 1,
                        escape.end as int,
                        pair.end as int,
                    );
                    if rest is Ok {
                        assert(out@ + rest->Ok_0 == before + (src@.subrange(
                            pos as int,
                            escape.start as int,
                        ).push(c) + rest->Ok_0));
                    }
                }
                pos = escape.end;
            },
        }
        i += 1;
    }
    append_span(&mut out, src, pos, pair.end);
    string.append(out.as_str());
    Ok(())
}

/// Removes the first and the last character of `string`: the quotes that wrap
/// a quoted string. A string of fewer than two characters becomes empty.
pub fn remove_wrapping_quotes(string: &mut String)
    ensures
        final(string)@ == if old(string)@.len() >= 2 {
            old(string)@.subrange(1, old(string)@.len() - 1)
        } else {
            Seq::empty()
        },
{
    let chars = to_chars(string.as_str());
    let n = chars.len();
    if n >= 2 {
        *string = string_from(&chars, 1, n - 1);
    } else {
        *string = String::new();
    }
}

/// The position of the group that `owner` owns.
fn owner_position(references: &Vec<(String, Vec<Reference>)>, owner: &String) -> (r: Option<usize>)
    ensures
        match r {
            Some(i) => crate::context::find_owner(groups(references@), owner@, 0) == Some(i as int)
                && i < references.len(),
            None => crate::context::find_owner(groups(references@), owner@, 0) is None,
        },
{
    let mut i: usize = 0;
    while i < references.len()
        invariant
            i <= references.len(),
            crate::context::find_owner(groups(references@), owner@, 0)
                == crate::context::find_owner(groups(references@), owner@, i as int),
        decreases references.len() - i,
    {
        if references[i].0 == *owner {
            return Some(i);
        }
        i += 1;
    }
    None
}

/// Records the placeholder whose target is the node `pair`, for the string at
/// the place where the builder stands.
pub fn add_reference_to_ctx(src: &Vec<char>, pair: &Node, ctx: &mut Context) -> (r: Result<(), Error>)
    requires
        pair.start <= pair.end <= src.len(),
    ensures
        r is Ok,
        final(ctx)@.location == old(ctx)@.location,
        final(ctx)@.references == record(
            old(ctx)@.references,
            Link {
                target: pair@.text(src@),
                value: None,
                location: join(old(ctx)@.location, '.'),
            },
        ),
        old(ctx)@.wf() ==> final(ctx)@.wf(),
{
    let current_location = join_path(&ctx.location);
    let ghost link = Link {
        target: pair@.text(src@),
        value: None,
        location: join(old(ctx)@.location, '.'),
    };
    proof {
        if old(ctx)@.wf() {
            crate::context::lemma_record_wf(old(ctx)@, link);
        }
    }
    let found = owner_position(&ctx.references, &current_location);
    let reference = Reference {
        target: string_from(src, pair.start, pair.end),
        value: None,
        location: current_location.clone(),
    };
    assert(reference@ == link);
    match found {
        Some(i) => {
            let group = &mut ctx.references[i];
            group.1.push(reference);
            assert(links(group.1@) == links(old(ctx).references@[i as int].1@).push(link));
            assert(groups(ctx.references@) == record(old(ctx)@.references, link));
        },
        None => {
            let mut group: Vec<Reference> = Vec::new();
            group.push(reference);
            assert(links(group@) == seq![link]);
            ctx.references.push((current_location, group));
            assert(groups(ctx.references@) == record(old(ctx)@.references, link));
        },
    }
    Ok(())
}

/// Whether `c` opens and closes a string.
fn is_quote_char(c: char) -> (r: bool)
    ensures
        r == is_quote(c),
{
    c == '"' || c == '\'' || c == '`'
}

/// The string value that the node `pair` stands for: its text without the
/// quotes, with each escape sequence replaced by its character where it
/// stands. Placeholders stay as they are written and are recorded in `ctx`;
/// where `extract_refs` is false, as in a key, a placeholder is an error.
pub fn parse_string(src: &Vec<char>, pair: &Node, ctx: &mut Context, extract_refs: bool) -> (r: Result<
    Value,
    Error,
>)
    requires
        pair@.wf(src@),
        pair.rule == Rule::String,
    ensures
        final(ctx)@.location == old(ctx)@.location,
        final(ctx)@.references == record_all(
            old(ctx)@.references,
            links_at(decode(src@, pair@, extract_refs).1, old(ctx)@.location),
        ),
        old(ctx)@.wf() ==> final(ctx)@.wf(),
        match decode(src@, pair@, extract_refs).0 {
            Ok(text) => r matches Ok(v) && v@ == Json::String(text),
            Err(fault) => r matches Err(e) && e@ == fault,
        },
{
    match read_string(src, pair, ctx, extract_refs) {
        Ok(string) => Ok(Value::String(string)),
        Err(e) => Err(e),
    }
}

/// What the string node `pair` holds, as [`parse_string`] reads it.
pub fn read_string(src: &Vec<char>, pair: &Node, ctx: &mut Context, extract_refs: bool) -> (r: Result<
    String,
    Error,
>)
    requires
        pair@.wf(src@),
        pair.rule == Rule::String,
    ensures
        final(ctx)@.location == old(ctx)@.location,
        final(ctx)@.references == record_all(
            old(ctx)@.references,
            links_at(decode(src@, pair@, extract_refs).1, old(ctx)@.location),
        ),
        old(ctx)@.wf() ==> final(ctx)@.wf(),
        match decode(src@, pair@, extract_refs).0 {
            Ok(text) => r matches Ok(s) && s@ == text,
            Err(fault) => r matches Err(e) && e@ == fault,
        },
{
    proof {
        lemma_tree_of(*pair);
    }
    let quoted = pair.start < pair.end && is_quote_char(src[pair.start]);
    let content_start = if quoted {
        pair.start + 1
    } else {
        pair.start
    };
    let ghost content_end = pair@.content_end(src@);
    let ghost whole = decode(src@, pair@, extract_refs);
    let ghost location = old(ctx)@.location;
    let mut string = String::new();
    append_span(&mut string, src, pair.start, content_start);
    let ghost head = string@;
    let ghost acc = Seq::<char>::empty();
    let ghost recorded = Seq::<Seq<char>>::empty();
    let mut outcome: Result<(), Error> = Ok(());
    let mut pos: usize = content_start;
    let mut i: usize = 0;
    assert(links_at(recorded, location) == Seq::<Link>::empty());
    while i < pair.children.len() && outcome.is_ok()
        invariant
            i <= pair.children.len(),
            pair@.wf(src@),
            pair.rule == Rule::String,
            pair@.children == trees(pair.children@),
            content_start == pair@.content_start(src@),
            content_end == pair@.content_end(src@),
            whole == decode(src@, pair@, extract_refs),
            location == old(ctx)@.location,
            content_start <= pos <= content_end,
            forall|j: int| i <= j < pair.children.len() ==> pos <= (#[trigger] pair@.children[j]).start,
            ctx@.location == location,
            ctx@.references == record_all(old(ctx)@.references, links_at(recorded, location)),
            old(ctx)@.wf() ==> ctx@.wf(),
            string@ == head + acc,
            match outcome {
                Ok(_) => {
                    let rest = string_walk(
                        src@,
                        pair@.children,
                        i as int,
                        pos as int,
                        content_end,
                        extract_refs,
                    );
                    &&& whole.1 == recorded + rest.1
                    &&& match rest.0 {
                        Ok(more) => whole.0 == Ok::<Seq<char>, Fault>(acc + more),
                        Err(fault) => whole.0 == Err::<Seq<char>, Fault>(fault),
                    }
                },
                Err(e) => whole.0 == Err::<Seq<char>, Fault>(e@) && whole.1 == recorded,
            },
        decreases pair.children.len() - i, outcome.is_ok() as int,
    {
        let child = &pair.children[i];
        assert(pair@.children[i as int] == child@);
        assert(pair@.children[i as int].wf(src@));
        let ghost rest = string_walk(
            src@,
            pair@.children,
            i + 1,
            if child.rule == Rule::Reference {
                pos as int
            } else {
                child.end as int
            },
            content_end,
            extract_refs,
        );
        if child.rule == Rule::Reference {
            if extract_refs {
                let ghost before = links_at(recorded, location);
                let _ = add_reference_to_ctx(src, child, ctx);
                proof {
                    let target = child@.text(src@);
                    let link = Link { target, value: None, location: join(location, '.') };
                    assert(links_at(recorded.push(target), location) == before.push(link));
                    assert(before.push(link).drop_last() == before);
                    assert(recorded.push(target) + rest.1 == recorded + (seq![target] + rest.1));
                    recorded = recorded.push(target);
                }
            } else {
                outcome = Err(Error::ReferenceInKey);
            }
        } else {
            match replace_escape_in_string_pair(src, child, &mut string, pos) {
                Ok(_) => {
                    proof {
                        let text = unescape(
                            src@,
                            child@.children,
                            0,
                            pos as int,
                            child.end as int,
                        )->Ok_0;
                        if rest.0 is Ok {
                            assert((acc + text) + rest.0->Ok_0 == acc + (text + rest.0->Ok_0));
                        }
                        assert(head + acc + text == head + (acc + text));
                        acc = acc + text;
                    }
                    pos = child.end;
                },
                Err(e) => {
                    outcome = Err(e);
                },
            }
        }
        if outcome.is_ok() {
            i += 1;
        }
    }
    match outcome {
        Err(e) => Err(e),
        Ok(_) => {
            append_span(&mut string, src, pos, pair.end);
            proof {
                let more = src@.subrange(pos as int, content_end);
                let tail = src@.subrange(content_end, pair.end as int);
                assert(src@.subrange(pos as int, pair.end as int) == more + tail);
                assert(string@ == head + (acc + more) + tail);
                if quoted {
                    assert(head.len() == 1);
                    assert(tail.len() == 1);
                    assert(string@.subrange(1, string@.len() - 1) == acc + more);
                } else {
                    assert(head + (acc + more) + tail == acc + more);
                }
            }
            if quoted {
                remove_wrapping_quotes(&mut string);
            }
            Ok(string)
        },
    }
}

/// `serde_json::Number::from_str`: the number that the text is the literal
/// of, or nothing where `serde_json` refuses the text. Whether a number comes
/// back, and which, depends on the text alone.
#[verifier::external_body]
fn number_from_text(text: &str) -> (r: Option<serde_json::Number>)
    ensures
        r == number_literal(text@),
{
    serde_json::Number::from_str(text).ok()
}

/// The value of the literal of a boolean.
pub fn parse_bool(value: &str) -> (r: Result<Value, Error>)
    ensures
        match bool_of(value@) {
            Ok(json) => r matches Ok(v) && v@ == json,
            Err(fault) => r matches Err(e) && e@ == fault,
        },
{
    let chars = to_chars(value);
    if chars.len() == 4 && chars[0] == 't' && chars[1] == 'r' && chars[2] == 'u' && chars[3]
        == 'e' {
        assert(value@ =~= seq!['t', 'r', 'u', 'e']);
        Ok(Value::Bool(true))
    } else if chars.len() == 5 && chars[0] == 'f' && chars[1] == 'a' && chars[2] == 'l'
        && chars[3] == 's' && chars[4] == 'e' {
        assert(value@ =~= seq!['f', 'a', 'l', 's', 'e']);
        Ok(Value::Bool(false))
    } else {
        assert(chars@.subrange(0, chars@.len() as int) == chars@);
        Err(Error::Literal(string_from(&chars, 0, chars.len())))
    }
}

/// The value of a number literal `text`, given what `serde_json` made of it.
pub fn number_value(parsed: Option<serde_json::Number>, text: &str) -> (r: Result<Value, Error>)
    ensures
        match number_from(parsed, text@) {
            Ok(json) => r matches Ok(v) && v@ == json,
            Err(fault) => r matches Err(e) && e@ == fault,
        },
{
    match parsed {
        Some(n) => Ok(Value::Number(n)),
        None => {
            let chars = to_chars(text);
            assert(chars@.subrange(0, chars@.len() as int) == chars@);
            Err(Error::Literal(string_from(&chars, 0, chars.len())))
        },
    }
}

/// The value of the literal of a number.
pub fn parse_number(value: &str) -> (r: Result<Value, Error>)
    ensures
        match number_of(value@) {
            Ok(json) => r matches Ok(v) && v@ == json,
            Err(fault) => r matches Err(e) && e@ == fault,
        },
{
    number_value(number_from_text(value), value)
}

/// The value that the node `pair` stands for. Placeholders met in its strings
/// are recorded in `ctx`, under the place where the builder stands.
pub fn parse_value(src: &Vec<char>, pair: &Node, ctx: &mut Context) -> (r: Result<Value, Error>)
    requires
        pair@.wf(src@),
        pair.rule.is_value(),
    ensures
        final(ctx)@.location == old(ctx)@.location,
        final(ctx)@.references == record_all(
            old(ctx)@.references,
            build(src@, pair@, old(ctx)@.location).found,
        ),
        old(ctx)@.wf() ==> final(ctx)@.wf(),
        match build(src@, pair@, old(ctx)@.location).result {
            Ok(json) => r matches Ok(v) && v@ == json,
            Err(fault) => r matches Err(e) && e@ == fault,
        },
    decreases *pair,
{
    proof {
        lemma_tree_of(*pair);
        assert(record_all(old(ctx)@.references, Seq::empty()) == old(ctx)@.references);
    }
    match pair.rule {
        Rule::Null => Ok(Value::Null),
        Rule::Bool => {
            let text = string_from(src, pair.start, pair.end);
            parse_bool(text.as_str())
        },
        Rule::Number => {
            let text = string_from(src, pair.start, pair.end);
            parse_number(text.as_str())
        },
        Rule::String => parse_string(src, pair, ctx, true),
        Rule::Object => {
            assert forall|i: int| 0 <= i < pair.children@.len() implies (
            #[trigger] pair.children@[i])@.wf(src@) && pair.children@[i].rule == Rule::Pair by {
                assert(pair@.children[i] == pair.children@[i]@);
            }
            parse_object(src, &pair.children, ctx)
        },
        Rule::Array => {
            assert forall|i: int| 0 <= i < pair.children@.len() implies (
            #[trigger] pair.children@[i])@.wf(src@) && pair.children@[i].rule.is_value() by {
                assert(pair@.children[i] == pair.children@[i]@);
            }
            parse_array(src, &pair.children, ctx)
        },
        _ => Ok(Value::Null),
    }
}

/// The array of the values that the nodes `pairs` stand for.
pub fn parse_array(src: &Vec<char>, pairs: &Vec<Node>, ctx: &mut Context) -> (r: Result<Value, Error>)
    requires
        forall|i: int|
            0 <= i < pairs@.len() ==> (#[trigger] pairs@[i])@.wf(src@) && pairs@[i].rule.is_value(),
    ensures
        final(ctx)@.location == old(ctx)@.location,
        final(ctx)@.references == record_all(
            old(ctx)@.references,
            build_items(src@, trees(pairs@), old(ctx)@.location, 0).1,
        ),
        old(ctx)@.wf() ==> final(ctx)@.wf(),
        match build_items(src@, trees(pairs@), old(ctx)@.location, 0).0 {
            Ok(items) => r matches Ok(v) && v@ == Json::Array(items),
            Err(fault) => r matches Err(e) && e@ == fault,
        },
    decreases *pairs,
{
    let ghost location = old(ctx)@.location;
    let ghost whole = build_items(src@, trees(pairs@), location, 0);
    let ghost found = Seq::<Link>::empty();
    let mut array: Vec<Value> = Vec::new();
    let mut outcome: Result<(), Error> = Ok(());
    let mut i: usize = 0;
    proof {
        assert(record_all(old(ctx)@.references, found) == old(ctx)@.references);
    }
    while i < pairs.len() && outcome.is_ok()
        invariant
            i <= pairs.len(),
            forall|j: int|
                0 <= j < pairs@.len() ==> (#[trigger] pairs@[j])@.wf(src@)
                    && pairs@[j].rule.is_value(),
            location == old(ctx)@.location,
            whole == build_items(src@, trees(pairs@), location, 0),
            ctx@.location == location,
            ctx@.references == record_all(old(ctx)@.references, found),
            old(ctx)@.wf() ==> ctx@.wf(),
            match outcome {
                Ok(_) => {
                    let rest = build_items(src@, trees(pairs@), location, i as int);
                    &&& whole.1 == found + rest.1
                    &&& match rest.0 {
                        Ok(values) => whole.0 == Ok::<Seq<Json>, Fault>(items_model(array@) + values),
                        Err(fault) => whole.0 == Err::<Seq<Json>, Fault>(fault),
                    }
                },
                Err(e) => whole.0 == Err::<Seq<Json>, Fault>(e@) && whole.1 == found,
            },
        decreases pairs.len() - i, outcome.is_ok() as int,
    {
        let pair = &pairs[i];
        assert(trees(pairs@)[i as int] == pair@);
        let ghost first = build(src@, pair@, location);
        let ghost rest = build_items(src@, trees(pairs@), location, i + 1);
        let ghost before = items_model(array@);
        match parse_value(src, pair, ctx) {
            Ok(value) => {
                array.push(value);
                proof {
                    assert(items_model(array@) == before.push(first.result->Ok_0));
                    if rest.0 is Ok {
                        assert(before.push(first.result->Ok_0) + rest.0->Ok_0 == before + (seq![
                            first.result->Ok_0,
                        ] + rest.0->Ok_0));
                    }
                }
            },
            Err(e) => {
                outcome = Err(e);
            },
        }
        proof {
            crate::context::lemma_record_all_concat(old(ctx)@.references, found, first.found);
            assert((found + first.found) + rest.1 == found + (first.found + rest.1));
            found = found + first.found;
        }
        if outcome.is_ok() {
            i += 1;
        }
    }
    match outcome {
        Err(e) => Err(e),
        Ok(_) => {
            let value = Value::Array(array);
            proof {
                lemma_json_of(value);
                assert(items_model(array@) + Seq::<Json>::empty() == items_model(array@));
            }
            Ok(value)
        },
    }
}

/// The object whose members the nodes `pairs` stand for, each a key and a
/// value. The value is built with the key added to the builder's place; a key
/// that the object has already is an error.
pub fn parse_object(src: &Vec<char>, pairs: &Vec<Node>, ctx: &mut Context) -> (r: Result<Value, Error>)
    requires
        forall|i: int|
            0 <= i < pairs@.len() ==> (#[trigger] pairs@[i])@.wf(src@) && pairs@[i].rule == Rule::Pair,
    ensures
        final(ctx)@.location == old(ctx)@.location,
        final(ctx)@.references == record_all(
            old(ctx)@.references,
            build_members(src@, trees(pairs@), old(ctx)@.location, 0, Seq::empty()).1,
        ),
        old(ctx)@.wf() ==> final(ctx)@.wf(),
        match build_members(src@, trees(pairs@), old(ctx)@.location, 0, Seq::empty()).0 {
            Ok(members) => r matches Ok(v) && v@ == Json::Object(members),
            Err(fault) => r matches Err(e) && e@ == fault,
        },
    decreases *pairs,
{
    let ghost location = old(ctx)@.location;
    let ghost whole = build_members(src@, trees(pairs@), location, 0, Seq::empty());
    let ghost found = Seq::<Link>::empty();
    let mut object: Vec<(String, Value)> = Vec::new();
    let mut outcome: Result<(), Error> = Ok(());
    let mut i: usize = 0;
    proof {
        assert(record_all(old(ctx)@.references, found) == old(ctx)@.references);
        assert(members_model(object@) == Seq::<(Seq<char>, Json)>::empty());
    }
    while i < pairs.len() && outcome.is_ok()
        invariant
            i <= pairs.len(),
            forall|j: int|
                0 <= j < pairs@.len() ==> (#[trigger] pairs@[j])@.wf(src@) && pairs@[j].rule
                    == Rule::Pair,
            location == old(ctx)@.location,
            whole == build_members(src@, trees(pairs@), location, 0, Seq::empty()),
            ctx@.location == location,
            ctx@.references == record_all(old(ctx)@.references, found),
            old(ctx)@.wf() ==> ctx@.wf(),
            match outcome {
                Ok(_) => {
                    let rest = build_members(
                        src@,
                        trees(pairs@),
                        location,
                        i as int,
                        members_model(object@),
                    );
                    whole.1 == found + rest.1 && whole.0 == rest.0
                },
                Err(e) => whole.0 == Err::<Seq<(Seq<char>, Json)>, Fault>(e@) && whole.1 == found,
            },
        decreases pairs.len() - i, outcome.is_ok() as int,
    {
        let pair = &pairs[i];
        proof {
            assert(trees(pairs@)[i as int] == pair@);
            lemma_tree_of(*pair);
            assert(pair@.children[0] == pair.children@[0]@);
            assert(pair@.children[1] == pair.children@[1]@);
            assert(pair@.children[0].wf(src@));
            assert(pair@.children[1].wf(src@));
            lemma_key_records_nothing(
                src@,
                pair@.children[0].children,
                0,
                pair@.children[0].content_start(src@),
                pair@.children[0].content_end(src@),
            );
            assert(links_at(Seq::<Seq<char>>::empty(), location) == Seq::<Link>::empty());
            assert(record_all(ctx@.references, Seq::<Link>::empty()) == ctx@.references);
        }
        match read_string(src, &pair.children[0], ctx, false) {
            Err(e) => {
                proof {
                    assert(found + Seq::<Link>::empty() == found);
                }
                outcome = Err(e);
            },
            Ok(key) => {
                let ghost inner = build(src@, pair@.children[1], location.push(key@));
                let ghost before = members_model(object@);
                ctx.location.push(key.clone());
                assert(ctx@.location == location.push(key@));
                let built = parse_value(src, &pair.children[1], ctx);
                ctx.location.pop();
                assert(ctx@.location =~= location.push(key@).drop_last());
                proof {
                    crate::context::lemma_record_all_concat(
                        old(ctx)@.references,
                        found,
                        inner.found,
                    );
                }
                match built {
                    Err(e) => {
                        outcome = Err(e);
                    },
                    Ok(value) => {
                        if crate::value::position(&object, &key).is_some() {
                            outcome = Err(Error::DuplicateKey(key));
                        } else {
                            object.push((key, value));
                            proof {
                                assert(members_model(object@) == before.push(
                                    (key@, inner.result->Ok_0),
                                ));
                                let rest = build_members(
                                    src@,
                                    trees(pairs@),
                                    location,
                                    i + 1,
                                    members_model(object@),
                                );
                                assert((found + inner.found) + rest.1 == found + (inner.found
                                    + rest.1));
                            }
                        }
                    },
                }
                proof {
                    found = found + inner.found;
                }
            },
        }
        if outcome.is_ok() {
            i += 1;
        }
    }
    match outcome {
        Err(e) => Err(e),
        Ok(_) => {
            let value = Value::Object(object);
            proof {
                lemma_json_of(value);
                assert(found + Seq::<Link>::empty() == found);
            }
            Ok(value)
        },
    }
}

} // verus!
