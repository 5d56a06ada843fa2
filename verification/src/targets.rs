//! The target set and the hash verifier.

use vstd::prelude::*;
use crate::digest::{digest_hex, digest_text, md5_digest};
use crate::hexcode::lemma_hex_lower_is_lower_case;
use crate::text::{lower_text, lowered, same_ignoring_case, texts, to_lower};

verus! {

/// The digests of the files that are looked for, kept in lower case.
pub struct TargetSet {
    digests: Vec<String>,
}

/// The lower-case forms of `digests`, in order.
pub open spec fn normalized(digests: Seq<String>) -> Seq<Seq<char>> {
    lowered(texts(digests))
}

impl TargetSet {
    /// The stored digests, in the order in which they were given.
    pub closed spec fn entries(&self) -> Seq<Seq<char>> {
        Seq::new(self.digests@.len(), |i: int| self.digests@[i]@)
    }

    /// The stored digests as a set.
    pub open spec fn view(&self) -> Set<Seq<char>> {
        Set::new(|digest: Seq<char>| self.entries().contains(digest))
    }

    /// Builds the set from `digests`, each brought to lower case. Duplicates
    /// are kept; they change nothing about what the set holds.
    pub fn new(digests: &Vec<String>) -> (targets: TargetSet)
        ensures
            targets.entries() == normalized(digests@),
    {
        let mut lowered: Vec<String> = Vec::new();
        let mut i: usize = 0;
        while i < digests.len()
            invariant
                i <= digests.len(),
                lowered@.len() == i,
                forall|k: int| 0 <= k < i ==> (#[trigger] lowered@[k])@ == lower_text(digests@[k]@),
            decreases digests.len() - i,
        {
            lowered.push(to_lower(digests[i].as_str()));
            i += 1;
        }
        let targets = TargetSet { digests: lowered };
        assert(targets.entries() =~= normalized(digests@));
        targets
    }

    /// The number of stored digests, duplicates counted.
    pub fn len(&self) -> (count: usize)
        ensures
            count == self.entries().len(),
    {
        self.digests.len()
    }

    /// Whether `digest` is one of the stored digests, letter for letter.
    pub fn contains(&self, digest: &String) -> (found: bool)
        ensures
            found == self@.contains(digest@),
    {
        let mut i: usize = 0;
        while i < self.digests.len()
            invariant
                i <= self.digests.len(),
                forall|k: int| 0 <= k < i ==> (#[trigger] self.entries()[k]) != digest@,
            decreases self.digests.len() - i,
        {
            if self.digests[i] == *digest {
                assert(self.entries()[i as int] == digest@);
                return true;
            }
            i += 1;
        }
        false
    }
}

/// Targets match whatever the case in which they were given: a set built
/// from `digests` holds the digest of `data` exactly when one of `digests`
/// equals it up to the case of ASCII letters.
pub proof fn lemma_targets_ignore_case(targets: TargetSet, digests: Seq<String>, data: Seq<u8>)
    requires
        targets.entries() == normalized(digests),
    ensures
        targets@.contains(digest_text(data)) <==> exists|i: int|
            0 <= i < digests.len() && same_ignoring_case(
                (#[trigger] digests[i])@,
                digest_text(data),
            ),
{
    let wanted = digest_text(data);
    lemma_hex_lower_is_lower_case(md5_digest(data));
    if targets@.contains(wanted) {
        let i = choose|i: int|
            0 <= i < targets.entries().len() && targets.entries()[i] == wanted;
        assert(same_ignoring_case(digests[i]@, wanted));
    }
    if exists|i: int|
        0 <= i < digests.len() && same_ignoring_case((#[trigger] digests[i])@, wanted) {
        let i = choose|i: int|
            0 <= i < digests.len() && same_ignoring_case((#[trigger] digests[i])@, wanted);
        assert(targets.entries()[i] == wanted);
    }
}

/// Checks one candidate: computes the digest of `prefix` once and returns it
/// if the target set holds it.
pub fn verify(prefix: &[u8], targets: &TargetSet) -> (matched: Option<String>)
    ensures
        matched is Some <==> targets@.contains(digest_text(prefix@)),
        matched matches Some(digest) ==> digest@ == digest_text(prefix@),
{
    let digest = digest_hex(prefix);
    if targets.contains(&digest) {
        Some(digest)
    } else {
        None
    }
}

} // verus!
