//! Loading the target list and the signature list from text.
//!
//! Both lists hold one entry per line. Lines are trimmed of white space and
//! blank lines are skipped. A target is a digest in hexadecimal, kept in
//! lower case; a signature is a byte sequence in hexadecimal.

use vstd::prelude::*;
use crate::config::ConfigError;
use crate::hexcode::{decode_hex, hex_decoded, hex_value, is_hex_text};
use crate::signature::{contents, without_empty, SignatureSet};
use crate::targets::TargetSet;
use crate::text::{chars_of, entries, entries_of, lemma_entries_nonempty, lowered, texts};

verus! {

/// Whether `c` is a hexadecimal digit, in either case.
pub open spec fn is_hex_char(c: char) -> bool {
    ||| '0' <= c <= '9'
    ||| 'a' <= c <= 'f'
    ||| 'A' <= c <= 'F'
}

/// Whether `entry` is an even number of hexadecimal digits.
pub open spec fn is_hex_entry(entry: Seq<char>) -> bool {
    &&& entry.len() % 2 == 0
    &&& forall|i: int| 0 <= i < entry.len() ==> is_hex_char(#[trigger] entry[i])
}

/// The characters of `entry` as bytes; meant for ASCII text.
pub open spec fn ascii_bytes(entry: Seq<char>) -> Seq<u8> {
    Seq::new(entry.len(), |i: int| entry[i] as u8)
}

/// The byte sequence that the hexadecimal entry `entry` stands for.
pub open spec fn signature_bytes(entry: Seq<char>) -> Seq<u8>
    recommends
        is_hex_entry(entry),
{
    hex_decoded(ascii_bytes(entry))
}

/// The byte sequences that the hexadecimal entries `entries` stand for.
pub open spec fn signatures_of(entries: Seq<Seq<char>>) -> Seq<Seq<u8>> {
    Seq::new(entries.len(), |i: int| signature_bytes(entries[i]))
}

/// Whether entry `index` is the first of `entries` that is not hexadecimal
/// text.
pub open spec fn is_first_malformed(entries: Seq<Seq<char>>, index: int) -> bool {
    &&& 0 <= index < entries.len()
    &&& !is_hex_entry(entries[index])
    &&& forall|earlier: int| 0 <= earlier < index ==> is_hex_entry(#[trigger] entries[earlier])
}

/// An ASCII character is a hexadecimal digit exactly when its byte has a
/// hexadecimal value.
proof fn lemma_hex_char_value(c: char)
    requires
        c as u32 <= 127,
    ensures
        is_hex_char(c) <==> hex_value(c as u8) is Some,
{
    assert((c as u8) as u32 == c as u32);
}

/// Reads a target list: one digest per line, brought to lower case.
pub fn parse_targets(text: &str) -> (targets: TargetSet)
    ensures
        targets.entries() == lowered(entries_of(text@)),
{
    let digests = entries(text);
    TargetSet::new(&digests)
}

/// Decodes one entry of a signature list.
fn decode_entry(entry: &str) -> (decoded: Option<Vec<u8>>)
    ensures
        decoded is Some <==> is_hex_entry(entry@),
        decoded matches Some(bytes) ==> bytes@ == signature_bytes(entry@),
{
    let chars = chars_of(entry);
    let mut bytes: Vec<u8> = Vec::new();
    let mut i: usize = 0;
    while i < chars.len()
        invariant
            i <= chars@.len(),
            chars@ == entry@,
            bytes@ == ascii_bytes(entry@.take(i as int)),
            forall|k: int| 0 <= k < i ==> (#[trigger] entry@[k]) as u32 <= 127,
        decreases chars@.len() - i,
    {
        let c = chars[i];
        if c as u32 > 127 {
            assert(!is_hex_char(entry@[i as int]));
            return None;
        }
        bytes.push(c as u8);
        i += 1;
        assert(bytes@ =~= ascii_bytes(entry@.take(i as int)));
    }
    assert(entry@.take(i as int) =~= entry@);
    proof {
        let raw = ascii_bytes(entry@);
        assert forall|k: int| 0 <= k < entry@.len() implies (is_hex_char(#[trigger] entry@[k])
            <==> hex_value(raw[k]) is Some) by {
            lemma_hex_char_value(entry@[k]);
        }
        if is_hex_entry(entry@) {
            assert(is_hex_text(raw));
        }
        if is_hex_text(raw) {
            assert forall|k: int| 0 <= k < entry@.len() implies is_hex_char(
                #[trigger] entry@[k],
            ) by {
                assert(hex_value(raw[k]) is Some);
            }
        }
    }
    match decode_hex(bytes.as_slice()) {
        Ok(decoded) => Some(decoded),
        Err(_) => None,
    }
}

/// Dropping the empty sequences from sequences that are all non-empty
/// drops nothing.
proof fn lemma_without_empty_keeps_all(patterns: Seq<Seq<u8>>)
    requires
        forall|i: int| 0 <= i < patterns.len() ==> (#[trigger] patterns[i]).len() > 0,
    ensures
        without_empty(patterns) == patterns,
    decreases patterns.len(),
{
    reveal(Seq::filter);
    if patterns.len() > 0 {
        lemma_without_empty_keeps_all(patterns.drop_last());
        assert(patterns.drop_last().push(patterns.last()) =~= patterns);
    }
}

/// Reads a signature list: one byte sequence per line, in hexadecimal of
/// either case. The first entry that is not an even number of hexadecimal
/// digits makes the whole list malformed.
pub fn parse_signatures(text: &str) -> (parsed: Result<SignatureSet, ConfigError>)
    ensures
        match parsed {
            Ok(signatures) => {
                &&& forall|i: int|
                    0 <= i < entries_of(text@).len() ==> is_hex_entry(
                        #[trigger] entries_of(text@)[i],
                    )
                &&& signatures@ == signatures_of(entries_of(text@))
            },
            Err(error) => {
                &&& error matches ConfigError::MalformedSignature { entry }
                &&& is_first_malformed(entries_of(text@), entry as int)
            },
        },
{
    let lines = entries(text);
    let ghost listed = entries_of(text@);
    let mut patterns: Vec<Vec<u8>> = Vec::new();
    let mut i: usize = 0;
    while i < lines.len()
        invariant
            i <= lines@.len(),
            listed == entries_of(text@),
            texts(lines@) == listed,
            lines@.len() == listed.len(),
            patterns@.len() == i,
            forall|k: int| 0 <= k < i ==> is_hex_entry(#[trigger] listed[k]),
            forall|k: int| 0 <= k < i ==> (#[trigger] patterns@[k])@ == signature_bytes(listed[k]),
        decreases lines@.len() - i,
    {
        assert(texts(lines@)[i as int] == lines@[i as int]@);
        match decode_entry(lines[i].as_str()) {
            Some(bytes) => {
                patterns.push(bytes);
            },
            None => {
                return Err(ConfigError::MalformedSignature { entry: i });
            },
        }
        i += 1;
    }
    proof {
        let given = contents(patterns@);
        assert(given =~= signatures_of(listed));
        assert forall|k: int| 0 <= k < given.len() implies (#[trigger] given[k]).len() > 0 by {
            assert(is_hex_entry(listed[k]));
            lemma_entries_nonempty(text@);
        }
        lemma_without_empty_keeps_all(given);
    }
    Ok(SignatureSet::new(patterns))
}

} // verus!
