//! Texts as sequences of characters: cutting a dotted path into its segments,
//! joining segments, and replacing a token.

use vstd::prelude::*;
use vstd::string::*;

verus! {

/// `String::push` appends one character.
pub assume_specification[ std::string::String::push ](s: &mut std::string::String, c: char)
    ensures
        final(s)@ == old(s)@.push(c),
;

/// The texts of a sequence of strings.
pub open spec fn texts(strings: Seq<String>) -> Seq<Seq<char>> {
    Seq::new(strings.len(), |i: int| strings[i]@)
}

/// `s` cut at every `sep`: one part more than there are separators in `s`, so
/// the empty text has the one part that is empty.
pub open spec fn split(s: Seq<char>, sep: char) -> Seq<Seq<char>>
    decreases s.len(),
{
    if s.len() == 0 {
        seq![Seq::empty()]
    } else {
        let before = split(s.drop_last(), sep);
        if s.last() == sep {
            before.push(Seq::empty())
        } else {
            before.drop_last().push(before.last().push(s.last()))
        }
    }
}

/// The parts with `sep` between each two of them.
pub open spec fn join(parts: Seq<Seq<char>>, sep: char) -> Seq<char>
    decreases parts.len(),
{
    if parts.len() == 0 {
        Seq::empty()
    } else if parts.len() == 1 {
        parts[0]
    } else {
        join(parts.drop_last(), sep).push(sep) + parts.last()
    }
}

/// `token` stands in `s` at offset `at`.
pub open spec fn occurs_at(s: Seq<char>, token: Seq<char>, at: int) -> bool {
    &&& 0 <= at
    &&& at + token.len() <= s.len()
    &&& s.subrange(at, at + token.len()) == token
}

/// `s` from offset `from` on, with every occurrence of `token` replaced by
/// `with`. Occurrences are looked for from left to right and do not overlap.
/// An empty token occurs nowhere.
pub open spec fn replace_from(s: Seq<char>, token: Seq<char>, with: Seq<char>, from: int) -> Seq<char>
    decreases s.len() - from,
{
    if from < 0 || from >= s.len() {
        Seq::empty()
    } else if token.len() > 0 && occurs_at(s, token, from) {
        with + replace_from(s, token, with, from + token.len())
    } else {
        seq![s[from]] + replace_from(s, token, with, from + 1)
    }
}

/// `s` with every occurrence of `token` replaced by `with`.
pub open spec fn replace_all(s: Seq<char>, token: Seq<char>, with: Seq<char>) -> Seq<char> {
    replace_from(s, token, with, 0)
}

/// A split text has at least one part.
pub proof fn lemma_split_len(s: Seq<char>, sep: char)
    ensures
        split(s, sep).len() >= 1,
    decreases s.len(),
{
    if s.len() > 0 {
        lemma_split_len(s.drop_last(), sep);
    }
}

/// Joining the parts of a split text gives the text back.
pub proof fn lemma_join_split(s: Seq<char>, sep: char)
    ensures
        join(split(s, sep), sep) == s,
    decreases s.len(),
{
    if s.len() > 0 {
        let before = split(s.drop_last(), sep);
        lemma_split_len(s.drop_last(), sep);
        lemma_join_split(s.drop_last(), sep);
        let parts = split(s, sep);
        if s.last() == sep {
            assert(parts.drop_last() == before);
            assert(join(parts, sep) == s.drop_last().push(sep) + Seq::<char>::empty());
            assert(s.drop_last().push(sep) == s);
        } else if before.len() == 1 {
            assert(join(parts, sep) == before[0].push(s.last()));
            assert(s.drop_last().push(s.last()) == s);
        } else {
            assert(parts.drop_last() == before.drop_last());
            assert(join(before.drop_last(), sep).push(sep) + before.last().push(s.last()) == (join(
                before.drop_last(),
                sep,
            ).push(sep) + before.last()).push(s.last()));
            assert(s.drop_last().push(s.last()) == s);
        }
    }
}

/// Text without a separator, added behind a text, is added to its last part.
pub proof fn lemma_split_append(s: Seq<char>, more: Seq<char>, sep: char)
    requires
        forall|k: int| 0 <= k < more.len() ==> more[k] != sep,
    ensures
        split(s + more, sep) == split(s, sep).drop_last().push(split(s, sep).last() + more),
    decreases more.len(),
{
    lemma_split_len(s, sep);
    let parts = split(s, sep);
    if more.len() == 0 {
        assert(s + more == s);
        assert(parts.last() + more == parts.last());
        assert(parts.drop_last().push(parts.last()) == parts);
    } else {
        let whole = s + more;
        lemma_split_append(s, more.drop_last(), sep);
        assert(whole.drop_last() == s + more.drop_last());
        assert(whole.last() == more.last());
        let before = split(whole.drop_last(), sep);
        assert(before.last() == parts.last() + more.drop_last());
        assert(before.drop_last() == parts.drop_last());
        assert((parts.last() + more.drop_last()).push(more.last()) == parts.last() + more);
    }
}

/// Splitting joined parts gives the parts back, where there is at least one
/// part and none of them holds the separator.
pub proof fn lemma_split_join(parts: Seq<Seq<char>>, sep: char)
    requires
        parts.len() >= 1,
        forall|i: int, k: int|
            0 <= i < parts.len() && 0 <= k < parts[i].len() ==> #[trigger] parts[i][k] != sep,
    ensures
        split(join(parts, sep), sep) == parts,
    decreases parts.len(),
{
    if parts.len() == 1 {
        lemma_split_append(Seq::empty(), parts[0], sep);
        assert(Seq::<char>::empty() + parts[0] == parts[0]);
        assert(split(Seq::<char>::empty(), sep).drop_last().push(parts[0]) == parts);
    } else {
        let init = parts.drop_last();
        lemma_split_join(init, sep);
        let head = join(init, sep).push(sep);
        assert(head.drop_last() == join(init, sep));
        assert(split(head, sep) == init.push(Seq::empty()));
        lemma_split_append(head, parts.last(), sep);
        assert(Seq::<char>::empty() + parts.last() == parts.last());
        assert(init.push(Seq::empty()).drop_last() == init);
        assert(init.push(parts.last()) == parts);
    }
}

/// The characters of `s`.
pub fn to_chars(s: &str) -> (r: Vec<char>)
    ensures
        r@ == s@,
{
    let mut out: Vec<char> = Vec::new();
    for c in it: s.chars()
        invariant
            it.seq() == s@,
            out@ == it.seq().take(it.index()),
    {
        out.push(c);
    }
    out
}

/// The characters of `chars` from `start` up to `end`, as a string.
pub fn string_from(chars: &Vec<char>, start: usize, end: usize) -> (r: String)
    requires
        start <= end <= chars.len(),
    ensures
        r@ == chars@.subrange(start as int, end as int),
{
    let mut out = String::new();
    let mut i: usize = start;
    while i < end
        invariant
            start <= i <= end <= chars.len(),
            out@ == chars@.subrange(start as int, i as int),
        decreases end - i,
    {
        out.push(chars[i]);
        i += 1;
        assert(chars@.subrange(start as int, i as int) == chars@.subrange(
            start as int,
            i - 1,
        ).push(chars@[i - 1]));
    }
    out
}

/// The segments of a dotted path.
pub fn split_path(path: &str) -> (r: Vec<String>)
    ensures
        texts(r@) == split(path@, '.'),
{
    let chars = to_chars(path);
    let mut done: Vec<String> = Vec::new();
    let mut current = String::new();
    let mut i: usize = 0;
    while i < chars.len()
        invariant
            i <= chars.len(),
            chars@ == path@,
            texts(done@).push(current@) == split(chars@.take(i as int), '.'),
        decreases chars.len() - i,
    {
        let c = chars[i];
        proof {
            let now = chars@.take(i + 1);
            assert(now.drop_last() == chars@.take(i as int));
            assert(now.last() == c);
            lemma_split_len(chars@.take(i as int), '.');
        }
        if c == '.' {
            let ghost before = texts(done@).push(current@);
            done.push(current);
            current = String::new();
            assert(texts(done@) == before);
        } else {
            let ghost before = texts(done@).push(current@);
            current.push(c);
            assert(texts(done@).push(current@) == before.drop_last().push(before.last().push(c)));
        }
        i += 1;
    }
    let ghost before = texts(done@).push(current@);
    done.push(current);
    assert(texts(done@) == before);
    assert(chars@.take(i as int) == chars@);
    done
}

/// The segments joined by dots.
pub fn join_path(segments: &Vec<String>) -> (r: String)
    ensures
        r@ == join(texts(segments@), '.'),
{
    let mut out = String::new();
    let mut i: usize = 0;
    while i < segments.len()
        invariant
            i <= segments.len(),
            out@ == join(texts(segments@).take(i as int), '.'),
        decreases segments.len() - i,
    {
        proof {
            let now = texts(segments@).take(i + 1);
            assert(now.drop_last() == texts(segments@).take(i as int));
            assert(now.last() == segments@[i as int]@);
        }
        if i > 0 {
            out.push('.');
        }
        out.append(segments[i].as_str());
        i += 1;
    }
    assert(texts(segments@).take(i as int) == texts(segments@));
    out
}

/// Whether `token` stands in `s` at offset `at`.
pub fn token_at(s: &Vec<char>, token: &Vec<char>, at: usize) -> (r: bool)
    requires
        at <= s.len(),
    ensures
        r == occurs_at(s@, token@, at as int),
{
    if token.len() > s.len() - at {
        return false;
    }
    let mut k: usize = 0;
    while k < token.len()
        invariant
            k <= token.len(),
            at + token.len() <= s.len(),
            s@.subrange(at as int, at + k) == token@.take(k as int),
        decreases token.len() - k,
    {
        if s[at + k] != token[k] {
            assert(s@.subrange(at as int, at + token.len())[k as int] != token@[k as int]);
            return false;
        }
        k += 1;
        assert(s@.subrange(at as int, at + k) == s@.subrange(at as int, at + k - 1).push(
            s@[at + k - 1],
        ));
        assert(token@.take(k as int) == token@.take(k - 1).push(token@[k - 1]));
    }
    assert(token@.take(k as int) == token@);
    true
}

/// `text` with every occurrence of `token` replaced by `with`.
pub fn replace(text: &str, token: &str, with: &str) -> (r: String)
    ensures
        r@ == replace_all(text@, token@, with@),
{
    let s = to_chars(text);
    let t = to_chars(token);
    let mut out = String::new();
    let mut i: usize = 0;
    while i < s.len()
        invariant
            i <= s.len(),
            s@ == text@,
            t@ == token@,
            out@ + replace_from(s@, t@, with@, i as int) == replace_all(s@, t@, with@),
        decreases s.len() - i,
    {
        let ghost rest = replace_from(s@, t@, with@, i as int);
        if t.len() > 0 && token_at(&s, &t, i) {
            let ghost before = out@;
            out.append(with);
            i += t.len();
            assert(out@ + replace_from(s@, t@, with@, i as int) == before + rest);
        } else {
            let ghost before = out@;
            out.push(s[i]);
            i += 1;
            assert(out@ + replace_from(s@, t@, with@, i as int) == before + rest);
        }
    }
    assert(out@ + Seq::<char>::empty() == out@);
    out
}

} // verus!
