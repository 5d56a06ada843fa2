//! The carve worker: the length search that finds where a file ends.

use vstd::prelude::*;
use vstd::slice::slice_subrange;
use vstd::string::StringExecFns;
use crate::digest::{digest_text, RunningDigest};
use crate::targets::TargetSet;

verus! {

/// Default bound on the length of a carved file, in bytes.
pub const DEFAULT_MAX_CARVE_LEN: usize = 200000;

/// Whether the first `length` bytes of `buffer` are a non-empty candidate
/// whose digest is a target.
pub open spec fn is_match(buffer: Seq<u8>, targets: Set<Seq<char>>, length: int) -> bool {
    &&& 1 <= length <= buffer.len()
    &&& targets.contains(digest_text(buffer.take(length)))
}

/// Whether `length` is the shortest matching candidate of at most `limit`
/// bytes.
pub open spec fn is_shortest_match(
    buffer: Seq<u8>,
    targets: Set<Seq<char>>,
    limit: int,
    length: int,
) -> bool {
    &&& length <= limit
    &&& is_match(buffer, targets, length)
    &&& forall|shorter: int| 1 <= shorter < length ==> !is_match(buffer, targets, shorter)
}

/// Whether no candidate of at most `limit` bytes matches.
pub open spec fn no_match(buffer: Seq<u8>, targets: Set<Seq<char>>, limit: int) -> bool {
    forall|length: int| 1 <= length <= limit ==> !is_match(buffer, targets, length)
}

/// The length of the shortest matching candidate of at most `limit` bytes,
/// if there is one.
pub open spec fn shortest_match(buffer: Seq<u8>, targets: Set<Seq<char>>, limit: int) -> Option<
    int,
>
    decreases limit,
{
    if limit <= 0 {
        None
    } else {
        match shortest_match(buffer, targets, limit - 1) {
            Some(length) => Some(length),
            None => if is_match(buffer, targets, limit) {
                Some(limit)
            } else {
                None
            },
        }
    }
}

/// `shortest_match` finds the shortest matching candidate when one exists
/// within the limit, and nothing otherwise.
pub proof fn lemma_shortest_match(buffer: Seq<u8>, targets: Set<Seq<char>>, limit: int)
    ensures
        match shortest_match(buffer, targets, limit) {
            Some(length) => is_shortest_match(buffer, targets, limit, length),
            None => no_match(buffer, targets, limit),
        },
    decreases limit,
{
    if limit > 0 {
        lemma_shortest_match(buffer, targets, limit - 1);
    }
}

/// At most one length is the shortest match, so the outcome of a search is
/// fixed by the buffer, the targets and the limit.
pub proof fn lemma_shortest_match_unique(
    buffer: Seq<u8>,
    targets: Set<Seq<char>>,
    limit: int,
    length: int,
)
    requires
        is_shortest_match(buffer, targets, limit, length),
    ensures
        shortest_match(buffer, targets, limit) == Some(length),
{
    lemma_shortest_match(buffer, targets, limit);
    match shortest_match(buffer, targets, limit) {
        Some(other) => {
            if other < length {
                assert(!is_match(buffer, targets, other));
            } else if length < other {
                assert(!is_match(buffer, targets, length));
            }
        },
        None => {
            assert(!is_match(buffer, targets, length));
        },
    }
}

/// One carving attempt: where in the image it starts and how long the
/// carved file may be.
#[derive(Clone, Copy, Debug, PartialEq, Eq, Structural)]
pub struct CarveJob {
    pub offset: u64,
    pub max_len: usize,
}

/// A successful search: the digest that matched and how many bytes, counted
/// from the start of the buffer, have it.
#[derive(Debug)]
pub struct Carved {
    pub digest: String,
    pub length: usize,
}

/// Searches the prefixes of `buffer` for one whose digest is a target, from
/// the shortest up to `max_len` bytes, and stops at the first that matches.
pub fn carve(buffer: &[u8], targets: &TargetSet, max_len: usize) -> (found: Option<Carved>)
    ensures
        match found {
            Some(carved) => {
                &&& is_shortest_match(buffer@, targets@, max_len as int, carved.length as int)
                &&& carved.digest@ == digest_text(buffer@.take(carved.length as int))
            },
            None => no_match(buffer@, targets@, max_len as int),
        },
{
    let limit = if buffer.len() < max_len {
        buffer.len()
    } else {
        max_len
    };
    let mut running = RunningDigest::new();
    let mut length: usize = 0;
    while length < limit
        invariant
            length <= limit,
            limit <= buffer.len(),
            limit <= max_len,
            running@ == buffer@.take(length as int),
            forall|shorter: int| 1 <= shorter <= length ==> !is_match(buffer@, targets@, shorter),
        decreases limit - length,
    {
        running.update(slice_subrange(buffer, length, length + 1));
        assert(buffer@.take(length as int) + buffer@.subrange(length as int, length + 1)
            =~= buffer@.take(length + 1));
        length += 1;
        let digest = running.hex();
        if targets.contains(&digest) {
            return Some(Carved { digest, length });
        }
    }
    None
}

/// The name of the file that holds the carved bytes of a digest.
pub open spec fn output_name(digest: Seq<char>) -> Seq<char> {
    digest + ".carve"@
}

/// Builds the output file name for `digest`.
pub fn carved_file_name(digest: &str) -> (name: String)
    ensures
        name@ == output_name(digest@),
{
    String::from_str(digest).concat(".carve")
}

/// A file recovered from the image: its bytes are the `length` bytes of the
/// image from `start` on, their digest is `digest`, and `name` is the name
/// of the file that they are written to.
#[derive(Debug)]
pub struct CarvedFile {
    pub name: String,
    pub digest: String,
    pub start: u64,
    pub length: usize,
}

/// Whether `file` describes what `job` recovers from `buffer`, the bytes of
/// the image from the job's offset on: the shortest prefix whose digest is
/// a target, named by that digest.
pub open spec fn recovers(
    job: CarveJob,
    buffer: Seq<u8>,
    targets: Set<Seq<char>>,
    file: CarvedFile,
) -> bool {
    &&& is_shortest_match(buffer, targets, job.max_len as int, file.length as int)
    &&& file.digest@ == digest_text(buffer.take(file.length as int))
    &&& file.name@ == output_name(file.digest@)
    &&& file.start == job.offset
}

/// A recovered file is never longer than the job allows, and hashing its
/// bytes again gives the target digest that it is named by.
pub proof fn lemma_recovered_file_round_trip(
    job: CarveJob,
    buffer: Seq<u8>,
    targets: Set<Seq<char>>,
    file: CarvedFile,
)
    requires
        recovers(job, buffer, targets, file),
    ensures
        1 <= file.length <= job.max_len,
        file.length <= buffer.len(),
        digest_text(buffer.take(file.length as int)) == file.digest@,
        targets.contains(digest_text(buffer.take(file.length as int))),
        file.name@ == output_name(digest_text(buffer.take(file.length as int))),
{
}

/// Runs one job on `buffer`, the bytes of the image from the job's offset
/// on: searches for the shortest prefix whose digest is a target and, if
/// there is one, says where the recovered file lies and what it is called.
pub fn run_job(job: CarveJob, buffer: &[u8], targets: &TargetSet) -> (outcome: Option<CarvedFile>)
    ensures
        match outcome {
            Some(file) => recovers(job, buffer@, targets@, file),
            None => no_match(buffer@, targets@, job.max_len as int),
        },
{
    match carve(buffer, targets, job.max_len) {
        Some(carved) => {
            let name = carved_file_name(carved.digest.as_str());
            Some(
                CarvedFile {
                    name,
                    digest: carved.digest,
                    start: job.offset,
                    length: carved.length,
                },
            )
        },
        None => None,
    }
}

} // verus!
