//! The signature set and the signature matcher.

use vstd::prelude::*;

verus! {

/// Whether `needle` stands in `haystack` at index `at`.
pub open spec fn occurs_at(haystack: Seq<u8>, needle: Seq<u8>, at: int) -> bool {
    &&& 0 <= at
    &&& at + needle.len() <= haystack.len()
    &&& haystack.subrange(at, at + needle.len()) == needle
}

/// Whether `needle` stands somewhere in `haystack`.
pub open spec fn occurs(haystack: Seq<u8>, needle: Seq<u8>) -> bool {
    exists|at: int| occurs_at(haystack, needle, at)
}

/// Whether `at` is the leftmost place where `needle` stands in `haystack`.
pub open spec fn is_first_occurrence(haystack: Seq<u8>, needle: Seq<u8>, at: int) -> bool {
    &&& occurs_at(haystack, needle, at)
    &&& forall|earlier: int| 0 <= earlier < at ==> !occurs_at(haystack, needle, earlier)
}

/// The leftmost place at or after `from` where `needle` stands in
/// `haystack`, if there is one.
pub open spec fn first_occurrence_from(haystack: Seq<u8>, needle: Seq<u8>, from: int) -> Option<
    int,
>
    decreases haystack.len() - from + 1,
{
    if from < 0 || from + needle.len() > haystack.len() {
        None
    } else if occurs_at(haystack, needle, from) {
        Some(from)
    } else {
        first_occurrence_from(haystack, needle, from + 1)
    }
}

/// The leftmost place where `needle` stands in `haystack`, if there is one.
pub open spec fn first_occurrence(haystack: Seq<u8>, needle: Seq<u8>) -> Option<int> {
    first_occurrence_from(haystack, needle, 0)
}

/// `first_occurrence_from` returns the leftmost occurrence at or after
/// `from`, and nothing exactly when there is none.
pub proof fn lemma_first_occurrence_from(haystack: Seq<u8>, needle: Seq<u8>, from: int)
    requires
        0 <= from,
    ensures
        match first_occurrence_from(haystack, needle, from) {
            Some(at) => {
                &&& from <= at
                &&& occurs_at(haystack, needle, at)
                &&& forall|earlier: int|
                    from <= earlier < at ==> !occurs_at(haystack, needle, earlier)
            },
            None => forall|at: int| from <= at ==> !occurs_at(haystack, needle, at),
        },
    decreases haystack.len() - from + 1,
{
    if from + needle.len() <= haystack.len() && !occurs_at(haystack, needle, from) {
        lemma_first_occurrence_from(haystack, needle, from + 1);
    }
}

/// `first_occurrence` is the leftmost occurrence, and nothing exactly when
/// the needle does not occur.
pub proof fn lemma_first_occurrence(haystack: Seq<u8>, needle: Seq<u8>)
    ensures
        match first_occurrence(haystack, needle) {
            Some(at) => is_first_occurrence(haystack, needle, at),
            None => !occurs(haystack, needle),
        },
{
    lemma_first_occurrence_from(haystack, needle, 0);
}

/// `memmem::TwoWaySearcher::new` on the needle and `search_in` on the
/// haystack. The contract claims that the result is the leftmost index at
/// which the needle stands in the haystack, and `None` exactly when it
/// stands nowhere; an empty needle is found at index 0.
#[verifier::external_body]
pub(crate) fn search(needle: &[u8], haystack: &[u8]) -> (found: Option<usize>)
    ensures
        match found {
            Some(at) => is_first_occurrence(haystack@, needle@, at as int),
            None => !occurs(haystack@, needle@),
        },
{
    memmem::Searcher::search_in(&memmem::TwoWaySearcher::new(needle), haystack)
}

/// Finds the leftmost occurrence of `needle` in `haystack`.
pub fn find_first(needle: &[u8], haystack: &[u8]) -> (found: Option<usize>)
    ensures
        found matches Some(at) ==> at + needle@.len() <= haystack@.len(),
        (match found {
            Some(at) => Some(at as int),
            None => None,
        }) == first_occurrence(haystack@, needle@),
{
    let found = search(needle, haystack);
    proof {
        lemma_first_occurrence(haystack@, needle@);
        match found {
            Some(at) => {
                match first_occurrence(haystack@, needle@) {
                    Some(other) => {
                        if other < at {
                            assert(!occurs_at(haystack@, needle@, other));
                        } else if at < other {
                            assert(!occurs_at(haystack@, needle@, at as int));
                        }
                    },
                    None => {
                        assert(occurs_at(haystack@, needle@, at as int));
                    },
                }
            },
            None => {
                match first_occurrence(haystack@, needle@) {
                    Some(other) => {
                        assert(occurs_at(haystack@, needle@, other));
                    },
                    None => {},
                }
            },
        }
    }
    found
}

/// The magic numbers that are looked for: byte sequences, none of them
/// empty, in a fixed order.
pub struct SignatureSet {
    patterns: Vec<Vec<u8>>,
    longest: usize,
}

/// The length of the longest of `signatures`; 0 if there is none.
pub open spec fn longest(signatures: Seq<Seq<u8>>) -> nat
    decreases signatures.len(),
{
    if signatures.len() == 0 {
        0
    } else {
        let before = longest(signatures.drop_last());
        if signatures.last().len() > before {
            signatures.last().len()
        } else {
            before
        }
    }
}

/// No signature is longer than the longest.
pub proof fn lemma_longest(signatures: Seq<Seq<u8>>, index: int)
    requires
        0 <= index < signatures.len(),
    ensures
        signatures[index].len() <= longest(signatures),
    decreases signatures.len(),
{
    if index < signatures.len() - 1 {
        lemma_longest(signatures.drop_last(), index);
    }
}

/// The non-empty sequences among `patterns`, in their order.
pub open spec fn without_empty(patterns: Seq<Seq<u8>>) -> Seq<Seq<u8>> {
    patterns.filter(|pattern: Seq<u8>| pattern.len() > 0)
}

/// The byte sequences that `patterns` holds.
pub open spec fn contents(patterns: Seq<Vec<u8>>) -> Seq<Seq<u8>> {
    Seq::new(patterns.len(), |i: int| patterns[i]@)
}

impl SignatureSet {
    #[verifier::type_invariant]
    spec fn well_formed(self) -> bool {
        &&& forall|i: int|
            0 <= i < self.patterns@.len() ==> (#[trigger] self.patterns@[i])@.len() > 0
        &&& self.longest == longest(contents(self.patterns@))
    }

    /// The signatures, in order.
    pub closed spec fn view(&self) -> Seq<Seq<u8>> {
        contents(self.patterns@)
    }

    /// Builds the set from `patterns`, leaving out the empty ones.
    pub fn new(patterns: Vec<Vec<u8>>) -> (signatures: SignatureSet)
        ensures
            signatures@ == without_empty(contents(patterns@)),
    {
        let ghost given = contents(patterns@);
        let mut kept: Vec<Vec<u8>> = Vec::new();
        let mut rest = patterns;
        // Patterns leave `rest` from its end, so they are moved, not copied,
        // and arrive in `kept` in reverse.
        while rest.len() > 0
            invariant
                contents(rest@) == given.take(rest@.len() as int),
                rest@.len() <= given.len(),
                forall|i: int| 0 <= i < kept@.len() ==> (#[trigger] kept@[i])@.len() > 0,
                contents(kept@).reverse() == without_empty(given.skip(rest@.len() as int)),
            decreases rest@.len(),
        {
            let ghost before = rest@;
            let ghost kept_before = kept@;
            let pattern = rest.pop().unwrap();
            proof {
                let n = rest@.len() as int;
                assert(contents(rest@) =~= given.take(n));
                assert(pattern@ == contents(before)[n]);
                assert(pattern@ == given[n]);
                lemma_without_empty_skip(given, n);
            }
            if pattern.len() > 0 {
                kept.push(pattern);
                assert(contents(kept@).reverse() =~= seq![pattern@] + contents(
                    kept_before,
                ).reverse());
            }
        }
        assert(given.skip(0) =~= given);
        let mut ordered: Vec<Vec<u8>> = Vec::new();
        while kept.len() > 0
            invariant
                forall|i: int| 0 <= i < kept@.len() ==> (#[trigger] kept@[i])@.len() > 0,
                forall|i: int| 0 <= i < ordered@.len() ==> (#[trigger] ordered@[i])@.len() > 0,
                contents(ordered@) + contents(kept@).reverse() == without_empty(given),
            decreases kept@.len(),
        {
            let ghost kept_before = kept@;
            let ghost ordered_before = ordered@;
            let pattern = kept.pop().unwrap();
            ordered.push(pattern);
            assert(contents(ordered@) + contents(kept@).reverse() =~= contents(ordered_before)
                + contents(kept_before).reverse());
        }
        assert(contents(ordered@) =~= contents(ordered@) + contents(kept@).reverse());
        let mut longest_len: usize = 0;
        let mut i: usize = 0;
        while i < ordered.len()
            invariant
                i <= ordered@.len(),
                longest_len == longest(contents(ordered@).take(i as int)),
            decreases ordered@.len() - i,
        {
            assert(contents(ordered@).take(i + 1).drop_last() =~= contents(ordered@).take(
                i as int,
            ));
            if ordered[i].len() > longest_len {
                longest_len = ordered[i].len();
            }
            i += 1;
        }
        assert(contents(ordered@).take(i as int) =~= contents(ordered@));
        SignatureSet { patterns: ordered, longest: longest_len }
    }

    /// The number of signatures.
    pub fn len(&self) -> (count: usize)
        ensures
            count == self@.len(),
    {
        self.patterns.len()
    }

    /// The length of the longest signature; 0 if there is none.
    pub fn longest_len(&self) -> (len: usize)
        ensures
            len == longest(self@),
    {
        proof {
            use_type_invariant(self);
        }
        self.longest
    }

    /// The signature at `index`.
    pub fn pattern(&self, index: usize) -> (pattern: &[u8])
        requires
            index < self@.len(),
        ensures
            pattern@ == self@[index as int],
            pattern@.len() > 0,
    {
        proof {
            use_type_invariant(self);
        }
        self.patterns[index].as_slice()
    }
}

/// One signature found in a window: which signature, and where in the
/// window its leftmost occurrence starts.
#[derive(Clone, Copy, Debug, PartialEq, Eq, Structural)]
pub struct SignatureMatch {
    pub signature: usize,
    pub offset: usize,
}

/// The matches of `signatures` in `window`: one for each signature that
/// occurs, at its leftmost occurrence, in the order of the signatures.
pub open spec fn matches_in(window: Seq<u8>, signatures: Seq<Seq<u8>>) -> Seq<SignatureMatch>
    decreases signatures.len(),
{
    if signatures.len() == 0 {
        Seq::empty()
    } else {
        let earlier = matches_in(window, signatures.drop_last());
        match first_occurrence(window, signatures.last()) {
            Some(at) => earlier.push(
                SignatureMatch { signature: (signatures.len() - 1) as usize, offset: at as usize },
            ),
            None => earlier,
        }
    }
}

/// Reports which signatures occur in `window` and where.
pub fn find_signatures(window: &[u8], signatures: &SignatureSet) -> (found: Vec<SignatureMatch>)
    ensures
        found@ == matches_in(window@, signatures@),
        forall|i: int| 0 <= i < found@.len() ==> (#[trigger] found@[i]).offset < window@.len(),
{
    let mut found: Vec<SignatureMatch> = Vec::new();
    let count = signatures.len();
    let mut index: usize = 0;
    while index < count
        invariant
            index <= count,
            count == signatures@.len(),
            found@ == matches_in(window@, signatures@.take(index as int)),
            forall|i: int| 0 <= i < found@.len() ==> (#[trigger] found@[i]).offset < window@.len(),
        decreases count - index,
    {
        let located = find_first(signatures.pattern(index), window);
        proof {
            let upto = signatures@.take(index + 1);
            assert(upto.drop_last() =~= signatures@.take(index as int));
            assert(upto.last() == signatures@[index as int]);
        }
        if let Some(offset) = located {
            found.push(SignatureMatch { signature: index, offset });
        }
        index += 1;
    }
    assert(signatures@.take(count as int) =~= signatures@);
    found
}

/// What `matches_in` lists: every entry names a signature and the leftmost
/// place where it stands in the window, the entries come in strictly
/// rising order of signature, and every signature that occurs has an entry.
pub proof fn lemma_matches_in(window: Seq<u8>, signatures: Seq<Seq<u8>>)
    requires
        window.len() <= usize::MAX,
        signatures.len() <= usize::MAX,
    ensures
        forall|i: int|
            0 <= i < matches_in(window, signatures).len() ==> {
                let found = #[trigger] matches_in(window, signatures)[i];
                &&& found.signature < signatures.len()
                &&& is_first_occurrence(
                    window,
                    signatures[found.signature as int],
                    found.offset as int,
                )
            },
        forall|i: int, j: int|
            0 <= i < j < matches_in(window, signatures).len() ==> (#[trigger] matches_in(
                window,
                signatures,
            )[i]).signature < (#[trigger] matches_in(window, signatures)[j]).signature,
        forall|k: int|
            0 <= k < signatures.len() && occurs(window, #[trigger] signatures[k]) ==> exists|
                i: int,
            |
                0 <= i < matches_in(window, signatures).len() && (#[trigger] matches_in(
                    window,
                    signatures,
                )[i]).signature == k,
    decreases signatures.len(),
{
    if signatures.len() > 0 {
        let earlier = signatures.drop_last();
        let last = signatures.len() - 1;
        lemma_matches_in(window, earlier);
        lemma_first_occurrence(window, signatures.last());
        let all = matches_in(window, signatures);
        let before = matches_in(window, earlier);
        assert forall|k: int|
            0 <= k < signatures.len() && occurs(window, #[trigger] signatures[k]) implies exists|
            i: int,
        |
            0 <= i < all.len() && (#[trigger] all[i]).signature == k by {
            if k < last {
                assert(earlier[k] == signatures[k]);
                let i = choose|i: int|
                    0 <= i < before.len() && (#[trigger] before[i]).signature == k;
                assert(all[i] == before[i]);
            } else {
                assert(all[all.len() - 1].signature == k);
            }
        }
    }
}

/// Dropping the empty sequences from a tail of `patterns` either keeps or
/// drops the tail's first sequence and treats the rest alike.
proof fn lemma_without_empty_skip(patterns: Seq<Seq<u8>>, from: int)
    requires
        0 <= from < patterns.len(),
    ensures
        without_empty(patterns.skip(from)) == if patterns[from].len() > 0 {
            seq![patterns[from]] + without_empty(patterns.skip(from + 1))
        } else {
            without_empty(patterns.skip(from + 1))
        },
{
    let keep = |pattern: Seq<u8>| pattern.len() > 0;
    let head = seq![patterns[from]];
    let tail = patterns.skip(from + 1);
    assert(patterns.skip(from) =~= head + tail);
    Seq::filter_distributes_over_add(head, tail, keep);
    reveal(Seq::filter);
    assert(head.drop_last() =~= Seq::<Seq<u8>>::empty());
    assert(head.drop_last().filter(keep) =~= Seq::<Seq<u8>>::empty());
    if patterns[from].len() > 0 {
        assert(head.filter(keep) =~= head);
    } else {
        assert(head.filter(keep) =~= Seq::<Seq<u8>>::empty());
        assert(Seq::<Seq<u8>>::empty() + tail.filter(keep) =~= tail.filter(keep));
    }
}

} // verus!
