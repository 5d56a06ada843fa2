//! Characters and lines: what the loaders of target and signature lists
//! need from text.

use vstd::prelude::*;

verus! {

/// `String::push`. The contract claims that the string then ends in `c` and
/// is otherwise as before.
#[verifier::external_body]
pub(crate) fn string_push(text: &mut String, c: char)
    ensures
        final(text)@ == old(text)@.push(c),
{
    text.push(c)
}

/// The characters of `text`, in order.
pub fn chars_of(text: &str) -> (chars: Vec<char>)
    ensures
        chars@ == text@,
{
    let mut chars: Vec<char> = Vec::new();
    for c in it: text.chars()
        invariant
            it.seq() == text@,
            chars@ == it.seq().take(it.index() as int),
    {
        chars.push(c);
    }
    chars
}

/// The ASCII lower-case form of `c`: `A` to `Z` become `a` to `z`, every
/// other character stays.
pub open spec fn lower_char(c: char) -> char {
    if 'A' <= c <= 'Z' {
        ((c as u8) + 32) as char
    } else {
        c
    }
}

/// Computes the ASCII lower-case form of `c`.
pub fn to_lower_char(c: char) -> (lowered: char)
    ensures
        lowered == lower_char(c),
{
    if 'A' <= c && c <= 'Z' {
        ((c as u8) + 32) as char
    } else {
        c
    }
}

/// The ASCII lower-case form of `text`, character by character.
pub open spec fn lower_text(text: Seq<char>) -> Seq<char> {
    Seq::new(text.len(), |i: int| lower_char(text[i]))
}

/// The ASCII lower-case forms of `entries`, in order.
pub open spec fn lowered(entries: Seq<Seq<char>>) -> Seq<Seq<char>> {
    Seq::new(entries.len(), |i: int| lower_text(entries[i]))
}

/// Two texts that differ at most in the case of ASCII letters.
pub open spec fn same_ignoring_case(a: Seq<char>, b: Seq<char>) -> bool {
    lower_text(a) == lower_text(b)
}

/// Computes the ASCII lower-case form of `text`.
pub fn to_lower(text: &str) -> (lowered: String)
    ensures
        lowered@ == lower_text(text@),
{
    let chars = chars_of(text);
    let mut lowered = String::new();
    let mut i: usize = 0;
    while i < chars.len()
        invariant
            i <= chars.len(),
            chars@ == text@,
            lowered@ == lower_text(text@.take(i as int)),
        decreases chars.len() - i,
    {
        string_push(&mut lowered, to_lower_char(chars[i]));
        i += 1;
        assert(lowered@ =~= lower_text(text@.take(i as int)));
    }
    assert(text@.take(i as int) =~= text@);
    lowered
}

/// Whether `c` is white space: the characters with the Unicode property
/// `White_Space`.
pub open spec fn is_whitespace(c: char) -> bool {
    let code = c as u32;
    ||| 0x09 <= code <= 0x0D
    ||| code == 0x20
    ||| code == 0x85
    ||| code == 0xA0
    ||| code == 0x1680
    ||| 0x2000 <= code <= 0x200A
    ||| code == 0x2028
    ||| code == 0x2029
    ||| code == 0x202F
    ||| code == 0x205F
    ||| code == 0x3000
}

/// Decides whether `c` is white space.
pub fn is_whitespace_char(c: char) -> (white: bool)
    ensures
        white == is_whitespace(c),
{
    let code = c as u32;
    (0x09 <= code && code <= 0x0D) || code == 0x20 || code == 0x85 || code == 0xA0 || code
        == 0x1680 || (0x2000 <= code && code <= 0x200A) || code == 0x2028 || code == 0x2029
        || code == 0x202F || code == 0x205F || code == 0x3000
}

/// `text` without the white space at its start.
pub open spec fn trim_start(text: Seq<char>) -> Seq<char>
    decreases text.len(),
{
    if text.len() > 0 && is_whitespace(text[0]) {
        trim_start(text.drop_first())
    } else {
        text
    }
}

/// `text` without the white space at its end.
pub open spec fn trim_end(text: Seq<char>) -> Seq<char>
    decreases text.len(),
{
    if text.len() > 0 && is_whitespace(text.last()) {
        trim_end(text.drop_last())
    } else {
        text
    }
}

/// `text` without the white space at its start and at its end.
pub open spec fn trimmed(text: Seq<char>) -> Seq<char> {
    trim_end(trim_start(text))
}

/// The number of characters of `text` before its first line feed; all of
/// them if it has none.
pub open spec fn first_line_len(text: Seq<char>) -> nat
    decreases text.len(),
{
    if text.len() == 0 || text[0] == '\n' {
        0
    } else {
        1 + first_line_len(text.drop_first())
    }
}

/// The lines of `text`: the pieces between its line feeds. A text without a
/// line feed is one line; a text that ends in a line feed has an empty last
/// line.
pub open spec fn lines(text: Seq<char>) -> Seq<Seq<char>>
    decreases text.len(),
{
    let n = first_line_len(text) as int;
    if n >= text.len() {
        seq![text]
    } else {
        seq![text.take(n)] + lines(text.skip(n + 1))
    }
}

/// The entries of a list file: its lines, each trimmed of white space,
/// without those that are then empty.
pub open spec fn entries_of(text: Seq<char>) -> Seq<Seq<char>> {
    lines(text).map_values(|line: Seq<char>| trimmed(line)).filter(
        |entry: Seq<char>| entry.len() > 0,
    )
}

/// The first line is as long as `first_line_len` says: it holds no line
/// feed, and a line feed follows it unless the text ends there.
pub proof fn lemma_first_line_len(text: Seq<char>)
    ensures
        first_line_len(text) <= text.len(),
        forall|i: int| 0 <= i < first_line_len(text) ==> text[i] != '\n',
        first_line_len(text) < text.len() ==> text[first_line_len(text) as int] == '\n',
    decreases text.len(),
{
    if text.len() > 0 && text[0] != '\n' {
        let rest = text.drop_first();
        lemma_first_line_len(rest);
        assert forall|i: int| 0 <= i < first_line_len(text) implies text[i] != '\n' by {
            if i > 0 {
                assert(text[i] == rest[i - 1]);
            }
        }
        if first_line_len(text) < text.len() {
            assert(text[first_line_len(text) as int] == rest[first_line_len(rest) as int]);
        }
    }
}

/// A stretch without a line feed that ends at a line feed, or at the end of
/// the text, is the first line.
pub proof fn lemma_first_line_found(text: Seq<char>, n: int)
    requires
        0 <= n <= text.len(),
        forall|i: int| 0 <= i < n ==> text[i] != '\n',
        n < text.len() ==> text[n] == '\n',
    ensures
        first_line_len(text) == n,
{
    lemma_first_line_len(text);
    let found = first_line_len(text) as int;
    if found < n {
        assert(text[found] == '\n');
    } else if n < found {
        assert(text[n] != '\n');
    }
}

/// The entries of a text are the entry of its first line, if that line is
/// not blank, followed by the entries of what comes after the line feed.
pub proof fn lemma_entries_unfold(text: Seq<char>)
    ensures
        entries_of(text) == ({
            let n = first_line_len(text) as int;
            let first = trimmed(text.take(n));
            let head = if first.len() > 0 {
                seq![first]
            } else {
                Seq::<Seq<char>>::empty()
            };
            if n >= text.len() {
                head
            } else {
                head + entries_of(text.skip(n + 1))
            }
        }),
{
    let trim = |line: Seq<char>| trimmed(line);
    let keep = |entry: Seq<char>| entry.len() > 0;
    let n = first_line_len(text) as int;
    lemma_first_line_len(text);
    let line = if n >= text.len() {
        text
    } else {
        text.take(n)
    };
    assert(text.take(text.len() as int) =~= text);
    let one = seq![line];
    let mapped = seq![trimmed(line)];
    assert(one.map_values(trim) =~= mapped);
    reveal(Seq::filter);
    assert(mapped.drop_last() =~= Seq::<Seq<char>>::empty());
    assert(mapped.drop_last().filter(keep) =~= Seq::<Seq<char>>::empty());
    if trimmed(line).len() > 0 {
        assert(mapped.filter(keep) =~= mapped);
    } else {
        assert(mapped.filter(keep) =~= Seq::<Seq<char>>::empty());
    }
    if n < text.len() {
        let rest = lines(text.skip(n + 1));
        assert(lines(text) == one + rest);
        assert((one + rest).map_values(trim) =~= mapped + rest.map_values(trim));
        Seq::filter_distributes_over_add(mapped, rest.map_values(trim), keep);
    } else {
        assert(lines(text) == one);
    }
}

/// No entry of a list file is empty.
pub proof fn lemma_entries_nonempty(text: Seq<char>)
    ensures
        forall|i: int| 0 <= i < entries_of(text).len() ==> (#[trigger] entries_of(text)[i]).len() > 0,
{
    let trimmed_lines = lines(text).map_values(|line: Seq<char>| trimmed(line));
    let keep = |entry: Seq<char>| entry.len() > 0;
    assert forall|i: int| 0 <= i < entries_of(text).len() implies (#[trigger] entries_of(
        text,
    )[i]).len() > 0 by {
        trimmed_lines.lemma_filter_pred(keep, i);
    }
}

/// Finds the end of the line that starts at `from`: the index of the next
/// line feed, or the length of the text.
fn line_end(chars: &Vec<char>, from: usize) -> (end: usize)
    requires
        from <= chars@.len(),
    ensures
        from <= end <= chars@.len(),
        end - from == first_line_len(chars@.skip(from as int)),
{
    let mut end = from;
    while end < chars.len() && chars[end] != '\n'
        invariant
            from <= end <= chars@.len(),
            forall|i: int| from <= i < end ==> chars@[i] != '\n',
        decreases chars@.len() - end,
    {
        end += 1;
    }
    proof {
        lemma_first_line_found(chars@.skip(from as int), end - from);
    }
    end
}

/// Trims the stretch of `chars` from `from` up to `to`: returns the bounds
/// of what is left without the white space at either end. A stretch of
/// white space alone leaves nothing, at its end.
fn trim_bounds(chars: &Vec<char>, from: usize, to: usize) -> (bounds: (usize, usize))
    requires
        from <= to <= chars@.len(),
    ensures
        from <= bounds.0 <= bounds.1 <= to,
        chars@.subrange(bounds.0 as int, bounds.1 as int) == trimmed(
            chars@.subrange(from as int, to as int),
        ),
        forall|i: int| from <= i < bounds.0 ==> is_whitespace(chars@[i]),
        forall|i: int| bounds.1 <= i < to ==> is_whitespace(chars@[i]),
        bounds.0 < bounds.1 ==> !is_whitespace(chars@[bounds.0 as int]) && !is_whitespace(
            chars@[bounds.1 - 1],
        ),
        bounds.0 == bounds.1 ==> bounds.0 == to,
{
    let mut start = from;
    while start < to && is_whitespace_char(chars[start])
        invariant
            from <= start <= to <= chars@.len(),
            trim_start(chars@.subrange(from as int, to as int)) == trim_start(
                chars@.subrange(start as int, to as int),
            ),
            forall|i: int| from <= i < start ==> is_whitespace(chars@[i]),
        decreases to - start,
    {
        assert(chars@.subrange(start as int, to as int).drop_first() =~= chars@.subrange(
            start + 1,
            to as int,
        ));
        start += 1;
    }
    let mut end = to;
    while end > start && is_whitespace_char(chars[end - 1])
        invariant
            start <= end <= to <= chars@.len(),
            trim_end(chars@.subrange(start as int, to as int)) == trim_end(
                chars@.subrange(start as int, end as int),
            ),
            forall|i: int| end <= i < to ==> is_whitespace(chars@[i]),
            start < to ==> !is_whitespace(chars@[start as int]),
        decreases end - start,
    {
        assert(chars@.subrange(start as int, end as int).drop_last() =~= chars@.subrange(
            start as int,
            end - 1,
        ));
        end -= 1;
    }
    (start, end)
}

/// Finds the entries of a list file: the bounds, in `chars`, of each line
/// that is not blank, trimmed of white space.
fn entry_bounds(chars: &Vec<char>) -> (bounds: Vec<(usize, usize)>)
    ensures
        bounds@.len() == entries_of(chars@).len(),
        forall|i: int|
            0 <= i < bounds@.len() ==> {
                let (start, end) = #[trigger] bounds@[i];
                &&& start < end <= chars@.len()
                &&& chars@.subrange(start as int, end as int) == entries_of(chars@)[i]
            },
{
    let mut bounds: Vec<(usize, usize)> = Vec::new();
    let ghost mut found: Seq<Seq<char>> = Seq::empty();
    let mut from: usize = 0;
    let mut more = true;
    proof {
        assert(chars@.skip(0) =~= chars@);
        assert(found + entries_of(chars@) =~= entries_of(chars@));
    }
    while more
        invariant
            from <= chars@.len(),
            bounds@.len() == found.len(),
            forall|i: int|
                0 <= i < bounds@.len() ==> {
                    let (start, end) = #[trigger] bounds@[i];
                    &&& start < end <= chars@.len()
                    &&& chars@.subrange(start as int, end as int) == found[i]
                },
            more ==> found + entries_of(chars@.skip(from as int)) == entries_of(chars@),
            !more ==> found == entries_of(chars@),
        decreases chars@.len() - from + (if more { 1int } else { 0int }),
    {
        let end = line_end(chars, from);
        let (start, stop) = trim_bounds(chars, from, end);
        let ghost before = found;
        let ghost rest = chars@.skip(from as int);
        let ghost entry = chars@.subrange(start as int, stop as int);
        proof {
            lemma_entries_unfold(rest);
            assert(rest.take(end - from) =~= chars@.subrange(from as int, end as int));
        }
        if start < stop {
            bounds.push((start, stop));
            proof {
                found = found.push(entry);
            }
        }
        if end < chars.len() {
            proof {
                let after = entries_of(chars@.skip(end + 1));
                assert(rest.skip(end - from + 1) =~= chars@.skip(end + 1));
                if start < stop {
                    assert(found + after =~= before + (seq![entry] + after));
                } else {
                    assert(found + after =~= before + (Seq::<Seq<char>>::empty() + after));
                }
            }
            from = end + 1;
        } else {
            proof {
                if start < stop {
                    assert(found =~= before + seq![entry]);
                } else {
                    assert(found =~= before + Seq::<Seq<char>>::empty());
                }
            }
            more = false;
        }
    }
    bounds
}

/// The texts of `strings`, in order.
pub open spec fn texts(strings: Seq<String>) -> Seq<Seq<char>> {
    Seq::new(strings.len(), |i: int| strings[i]@)
}

/// Copies the stretch of `chars` from `start` up to `end` into a string.
fn string_of(chars: &Vec<char>, start: usize, end: usize) -> (text: String)
    requires
        start <= end <= chars@.len(),
    ensures
        text@ == chars@.subrange(start as int, end as int),
{
    let mut text = String::new();
    let mut i = start;
    while i < end
        invariant
            start <= i <= end <= chars@.len(),
            text@ == chars@.subrange(start as int, i as int),
        decreases end - i,
    {
        string_push(&mut text, chars[i]);
        i += 1;
        assert(text@ =~= chars@.subrange(start as int, i as int));
    }
    text
}

/// Reads the entries of a list file: its lines, each trimmed of white
/// space, without those that are then empty.
pub fn entries(text: &str) -> (found: Vec<String>)
    ensures
        texts(found@) == entries_of(text@),
{
    let chars = chars_of(text);
    let bounds = entry_bounds(&chars);
    let mut found: Vec<String> = Vec::new();
    let mut i: usize = 0;
    while i < bounds.len()
        invariant
            i <= bounds@.len(),
            chars@ == text@,
            bounds@.len() == entries_of(chars@).len(),
            forall|k: int|
                0 <= k < bounds@.len() ==> {
                    let (start, end) = #[trigger] bounds@[k];
                    &&& start < end <= chars@.len()
                    &&& chars@.subrange(start as int, end as int) == entries_of(chars@)[k]
                },
            found@.len() == i,
            forall|k: int| 0 <= k < i ==> (#[trigger] found@[k])@ == entries_of(text@)[k],
        decreases bounds@.len() - i,
    {
        let (start, end) = bounds[i];
        found.push(string_of(&chars, start, end));
        i += 1;
    }
    assert(texts(found@) =~= entries_of(text@));
    found
}

} // verus!
