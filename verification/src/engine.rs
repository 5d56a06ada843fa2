//! The engine on an image held in memory: the scheduler driven to its end,
//! every job run as soon as it is handed out.

use vstd::prelude::*;
use vstd::slice::{slice_subrange, slice_to_vec};
use crate::carve::{
    is_match, is_shortest_match, lemma_shortest_match, lemma_shortest_match_unique, no_match,
    output_name, run_job, shortest_match, CarvedFile,
};
use crate::digest::digest_text;
use crate::config::{ConfigError, ScanConfig};
use crate::scheduler::{
    jobs_in, lemma_jobs_in_window, read_len, starting_before, Action, Event, Phase, Scheduler,
    SchedulerState,
};
use crate::sector::{is_sector_aligned, sector_floor};
use crate::signature::{
    is_first_occurrence, lemma_longest, lemma_matches_in, matches_in, occurs, occurs_at,
    SignatureMatch, SignatureSet,
};
use crate::targets::TargetSet;

verus! {

/// The bytes that a read of up to `len` bytes at `position` returns: what
/// the image holds there, cut off at its end; nothing at or past the end.
pub open spec fn read_at(image: Seq<u8>, position: int, len: int) -> Seq<u8> {
    if 0 <= position < image.len() && 0 <= len {
        if position + len <= image.len() {
            image.subrange(position, position + len)
        } else {
            image.subrange(position, image.len() as int)
        }
    } else {
        Seq::empty()
    }
}

/// How many bytes of the image lie at or after `position`.
pub open spec fn bytes_left(image: Seq<u8>, position: int) -> nat {
    if position < image.len() {
        (image.len() - position) as nat
    } else {
        0
    }
}

/// The offsets of all jobs of a scan that has reached the sector boundary
/// `position`: those that the read there gives rise to, then those of the
/// reads at the boundaries after it, up to the end of the image.
pub open spec fn jobs_from(
    image: Seq<u8>,
    signatures: Seq<Seq<u8>>,
    position: int,
    window_len: nat,
) -> Seq<int>
    decreases bytes_left(image, position),
{
    if position < 0 || position >= image.len() {
        Seq::empty()
    } else {
        jobs_in(
            read_at(image, position, read_len(window_len, signatures) as int),
            signatures,
            window_len,
            position,
        ) + jobs_from(image, signatures, position + 512, window_len)
    }
}

/// Where a recovered file lies in the image.
pub struct Placement {
    pub start: int,
    pub length: int,
}

/// Where the recovered file `file` lies.
pub open spec fn placement(file: CarvedFile) -> Placement {
    Placement { start: file.start as int, length: file.length as int }
}

/// Where the recovered files `files` lie, in order.
pub open spec fn placements(files: Seq<CarvedFile>) -> Seq<Placement> {
    Seq::new(files.len(), |i: int| placement(files[i]))
}

/// The files that the jobs at `jobs` recover, in the order of the jobs:
/// for each job the shortest prefix of the image from the job's offset on,
/// of at most `max_len` bytes, whose digest is a target, if there is one.
pub open spec fn carved_by(
    image: Seq<u8>,
    targets: Set<Seq<char>>,
    jobs: Seq<int>,
    max_len: int,
) -> Seq<Placement>
    decreases jobs.len(),
{
    if jobs.len() == 0 {
        Seq::empty()
    } else {
        let earlier = carved_by(image, targets, jobs.drop_last(), max_len);
        match shortest_match(read_at(image, jobs.last(), max_len), targets, max_len) {
            Some(length) => earlier.push(Placement { start: jobs.last(), length }),
            None => earlier,
        }
    }
}

/// The files that a scan of `image` recovers.
pub open spec fn scan_result(
    image: Seq<u8>,
    signatures: Seq<Seq<u8>>,
    targets: Set<Seq<char>>,
    config: ScanConfig,
) -> Seq<Placement> {
    carved_by(
        image,
        targets,
        jobs_from(
            image,
            signatures,
            sector_floor(config.start_offset as int),
            config.window_len as nat,
        ),
        config.max_carve_len as int,
    )
}

/// The offsets of the jobs that a scan in state `state` has still to hand
/// out: those queued, then those of the windows not yet read.
pub open spec fn outstanding(state: SchedulerState, image: Seq<u8>) -> Seq<int> {
    if state.end_of_stream {
        state.queue
    } else {
        state.queue + jobs_from(image, state.signatures, state.position, state.window_len)
    }
}

/// The offset of the job that `action` hands out, if it hands one out.
pub open spec fn handed_out(action: Action) -> Seq<int> {
    match action {
        Action::Dispatch(job) => seq![job.offset as int],
        _ => Seq::empty(),
    }
}

/// Whether `action` is what the scheduler in `state` has asked for.
pub open spec fn awaited(state: SchedulerState, action: Action) -> bool {
    match action {
        Action::Read { position, len } => {
            &&& state.phase == Phase::Reading
            &&& position == state.position
            &&& len == state.read_len()
        },
        Action::Dispatch(job) => state.phase == Phase::Spawning && job.max_len
            == state.max_carve_len,
        Action::Wait => state.phase == Phase::Waiting,
        Action::Finish => state.phase == Phase::Finished,
    }
}

/// The event with which the engine answers `action` on `image`.
pub open spec fn answers(image: Seq<u8>, action: Action, event: Event) -> bool {
    match action {
        Action::Read { position, len } => event matches Event::Window(window) && window@
            == read_at(image, position as int, len as int),
        Action::Dispatch(_) => event == Event::Spawned,
        Action::Wait => event == Event::WorkerFinished,
        Action::Finish => false,
    }
}

/// How many reads a scan in `state` may still make, at most.
pub open spec fn reads_left(state: SchedulerState, image: Seq<u8>) -> nat {
    if state.end_of_stream {
        0
    } else {
        bytes_left(image, state.position) + 1
    }
}

/// 1 while the scheduler waits to hear that a worker runs, else 0.
pub open spec fn spawning(state: SchedulerState) -> nat {
    if state.phase == Phase::Spawning {
        1
    } else {
        0
    }
}

/// One step of the engine hands out the next outstanding job or none, loses
/// none, and brings the scan nearer to its end.
pub proof fn lemma_engine_step(
    image: Seq<u8>,
    state: SchedulerState,
    action: Action,
    event: Event,
)
    requires
        image.len() <= usize::MAX,
        state.wf(),
        awaited(state, action),
        answers(image, action, event),
    ensures
        state.rejection(event) is None,
        ({
            let (next, then) = state.step(event);
            &&& awaited(next, then)
            &&& handed_out(then) + outstanding(next, image) == outstanding(state, image)
            &&& {
                ||| reads_left(next, image) < reads_left(state, image)
                ||| reads_left(next, image) == reads_left(state, image) && next.queue.len()
                    < state.queue.len()
                ||| reads_left(next, image) == reads_left(state, image) && next.queue.len()
                    == state.queue.len() && next.in_flight < state.in_flight
                ||| reads_left(next, image) == reads_left(state, image) && next.queue.len()
                    == state.queue.len() && next.in_flight == state.in_flight && spawning(next)
                    < spawning(state)
            }
        }),
{
    let absorbed = state.absorb(event);
    let (next, then) = state.step(event);
    match event {
        Event::Window(window) => {
            lemma_jobs_in_window(window@, state.signatures, state.window_len, state.position);
            if window@.len() > 0 {
                let found = jobs_in(
                    window@,
                    state.signatures,
                    state.window_len,
                    state.position,
                );
                assert(absorbed.queue =~= found);
                if state.position + 512 > u64::MAX {
                    assert(jobs_from(
                        image,
                        state.signatures,
                        state.position + 512,
                        state.window_len,
                    ) =~= Seq::<int>::empty());
                }
            }
            assert(outstanding(absorbed, image) =~= outstanding(state, image));
        },
        _ => {},
    }
    assert(outstanding(absorbed, image) == outstanding(state, image));
    assert(handed_out(then) + outstanding(next, image) =~= outstanding(absorbed, image));
}

/// What `carved_by` lists: every file starts at the offset of one of the
/// jobs, holds at least one byte and at most `max_len`, lies within the
/// image, and is the shortest stretch from its start whose digest is a
/// target.
pub proof fn lemma_carved_by(
    image: Seq<u8>,
    targets: Set<Seq<char>>,
    jobs: Seq<int>,
    max_len: int,
)
    ensures
        forall|i: int|
            0 <= i < carved_by(image, targets, jobs, max_len).len() ==> {
                let placed = #[trigger] carved_by(image, targets, jobs, max_len)[i];
                &&& jobs.contains(placed.start)
                &&& 1 <= placed.length <= max_len
                &&& 0 <= placed.start
                &&& placed.start + placed.length <= image.len()
                &&& is_shortest_match(
                    read_at(image, placed.start, max_len),
                    targets,
                    max_len,
                    placed.length,
                )
                &&& targets.contains(
                    digest_text(image.subrange(placed.start, placed.start + placed.length)),
                )
            },
    decreases jobs.len(),
{
    if jobs.len() > 0 {
        let earlier = carved_by(image, targets, jobs.drop_last(), max_len);
        let all = carved_by(image, targets, jobs, max_len);
        let buffer = read_at(image, jobs.last(), max_len);
        lemma_carved_by(image, targets, jobs.drop_last(), max_len);
        lemma_shortest_match(buffer, targets, max_len);
        assert forall|i: int| 0 <= i < all.len() implies {
            let placed = #[trigger] all[i];
            &&& jobs.contains(placed.start)
            &&& 1 <= placed.length <= max_len
            &&& 0 <= placed.start
            &&& placed.start + placed.length <= image.len()
            &&& is_shortest_match(
                read_at(image, placed.start, max_len),
                targets,
                max_len,
                placed.length,
            )
            &&& targets.contains(
                digest_text(image.subrange(placed.start, placed.start + placed.length)),
            )
        } by {
            if i < earlier.len() {
                assert(all[i] == earlier[i]);
                let at = choose|at: int|
                    0 <= at < jobs.drop_last().len() && jobs.drop_last()[at] == earlier[i].start;
                assert(jobs[at] == earlier[i].start);
            } else {
                let length = shortest_match(buffer, targets, max_len).unwrap();
                assert(all[i] == Placement { start: jobs.last(), length });
                assert(jobs[jobs.len() - 1] == jobs.last());
                assert(buffer.take(length) =~= image.subrange(
                    jobs.last(),
                    jobs.last() + length,
                ));
            }
        }
    }
}

/// A job whose search succeeds leaves a file in the result.
pub proof fn lemma_carved_by_holds(
    image: Seq<u8>,
    targets: Set<Seq<char>>,
    jobs: Seq<int>,
    max_len: int,
    start: int,
    length: int,
)
    requires
        jobs.contains(start),
        is_shortest_match(read_at(image, start, max_len), targets, max_len, length),
    ensures
        carved_by(image, targets, jobs, max_len).contains(Placement { start, length }),
    decreases jobs.len(),
{
    let all = carved_by(image, targets, jobs, max_len);
    let earlier = carved_by(image, targets, jobs.drop_last(), max_len);
    if jobs.last() == start {
        lemma_shortest_match_unique(read_at(image, start, max_len), targets, max_len, length);
        assert(all[all.len() - 1] == Placement { start, length });
    } else {
        let at = choose|at: int| 0 <= at < jobs.len() && jobs[at] == start;
        assert(jobs.drop_last()[at] == start);
        lemma_carved_by_holds(image, targets, jobs.drop_last(), max_len, start, length);
        let i = choose|i: int| 0 <= i < earlier.len() && earlier[i] == Placement { start, length };
        assert(all[i] == earlier[i]);
    }
}

/// The read at the sector of `offset` gives rise to a job at `offset` if a
/// signature stands there, within the window, and nowhere earlier in that
/// sector.
pub proof fn lemma_window_holds_job(
    image: Seq<u8>,
    signatures: Seq<Seq<u8>>,
    window_len: nat,
    index: int,
    offset: int,
)
    requires
        image.len() <= usize::MAX,
        signatures.len() <= usize::MAX,
        1 <= window_len <= 512,
        0 <= index < signatures.len(),
        0 <= offset,
        offset - sector_floor(offset) < window_len,
        occurs_at(image, signatures[index], offset),
        forall|earlier: int|
            sector_floor(offset) <= earlier < offset ==> !occurs_at(
                image,
                signatures[index],
                earlier,
            ),
    ensures
        jobs_in(
            read_at(image, sector_floor(offset), read_len(window_len, signatures) as int),
            signatures,
            window_len,
            sector_floor(offset),
        ).contains(offset),
{
    let base = sector_floor(offset);
    let needle = signatures[index];
    let window = read_at(image, base, read_len(window_len, signatures) as int);
    let local = offset - base;
    lemma_longest(signatures, index);
    assert(local + needle.len() <= window.len());
    assert(window.subrange(local, local + needle.len()) =~= image.subrange(
        offset,
        offset + needle.len(),
    ));
    assert(occurs_at(window, needle, local));
    assert forall|earlier: int| 0 <= earlier < local implies !occurs_at(
        window,
        needle,
        earlier,
    ) by {
        if occurs_at(window, needle, earlier) {
            assert(window.subrange(earlier, earlier + needle.len()) =~= image.subrange(
                base + earlier,
                base + earlier + needle.len(),
            ));
            assert(occurs_at(image, needle, base + earlier));
        }
    }
    let all = matches_in(window, signatures);
    lemma_matches_in(window, signatures);
    assert(occurs(window, needle));
    let i = choose|i: int| 0 <= i < all.len() && (#[trigger] all[i]).signature == index;
    assert(is_first_occurrence(window, needle, all[i].offset as int));
    if all[i].offset < local {
        assert(!occurs_at(window, needle, all[i].offset as int));
    } else if all[i].offset > local {
        assert(!occurs_at(window, needle, local));
    }
    let keep = |found: SignatureMatch| found.offset < window_len;
    let kept = starting_before(all, window_len);
    all.lemma_filter_contains(keep, i);
    let k = choose|k: int| 0 <= k < kept.len() && kept[k] == all[i];
    assert(jobs_in(window, signatures, window_len, base)[k] == offset);
}

/// A scan that starts at or before the sector of `offset` hands out a job
/// at `offset` if a signature stands there, within the window, and nowhere
/// earlier in that sector.
pub proof fn lemma_jobs_from_holds(
    image: Seq<u8>,
    signatures: Seq<Seq<u8>>,
    position: int,
    window_len: nat,
    index: int,
    offset: int,
)
    requires
        image.len() <= usize::MAX,
        signatures.len() <= usize::MAX,
        0 <= position <= sector_floor(offset),
        is_sector_aligned(position),
        1 <= window_len <= 512,
        0 <= index < signatures.len(),
        offset - sector_floor(offset) < window_len,
        occurs_at(image, signatures[index], offset),
        signatures[index].len() > 0,
        forall|earlier: int|
            sector_floor(offset) <= earlier < offset ==> !occurs_at(
                image,
                signatures[index],
                earlier,
            ),
    ensures
        jobs_from(image, signatures, position, window_len).contains(offset),
    decreases bytes_left(image, position),
{
    let base = sector_floor(offset);
    let here = jobs_in(
        read_at(image, position, read_len(window_len, signatures) as int),
        signatures,
        window_len,
        position,
    );
    let later = jobs_from(image, signatures, position + 512, window_len);
    let all = jobs_from(image, signatures, position, window_len);
    assert(all == here + later);
    if position == base {
        lemma_window_holds_job(image, signatures, window_len, index, offset);
        let i = choose|i: int| 0 <= i < here.len() && here[i] == offset;
        assert(all[i] == offset);
    } else {
        lemma_jobs_from_holds(image, signatures, position + 512, window_len, index, offset);
        let i = choose|i: int| 0 <= i < later.len() && later[i] == offset;
        assert(all[here.len() + i] == offset);
    }
}

/// A file planted in an image is recovered. If the bytes of the image from
/// `offset` on, `length` of them, have a digest that is a target and no
/// shorter stretch from `offset` has, if `length` is within the bound on
/// carved files, and if a signature stands at `offset`, within the window
/// of its sector, and nowhere earlier in that sector, then every scan that
/// starts at or before that sector recovers exactly those bytes.
pub proof fn lemma_planted_file_is_recovered(
    image: Seq<u8>,
    signatures: Seq<Seq<u8>>,
    targets: Set<Seq<char>>,
    config: ScanConfig,
    index: int,
    offset: int,
    length: int,
)
    requires
        image.len() <= usize::MAX,
        signatures.len() <= usize::MAX,
        config.valid(),
        sector_floor(config.start_offset as int) <= offset,
        offset - sector_floor(offset) < config.window_len,
        0 <= index < signatures.len(),
        signatures[index].len() > 0,
        occurs_at(image, signatures[index], offset),
        forall|earlier: int|
            sector_floor(offset) <= earlier < offset ==> !occurs_at(
                image,
                signatures[index],
                earlier,
            ),
        1 <= length <= config.max_carve_len,
        offset + length <= image.len(),
        targets.contains(digest_text(image.subrange(offset, offset + length))),
        forall|shorter: int|
            1 <= shorter < length ==> !targets.contains(
                digest_text(#[trigger] image.subrange(offset, offset + shorter)),
            ),
    ensures
        scan_result(image, signatures, targets, config).contains(
            Placement { start: offset, length },
        ),
{
    let start = sector_floor(config.start_offset as int);
    let max_len = config.max_carve_len as int;
    let buffer = read_at(image, offset, max_len);
    assert forall|shorter: int| 1 <= shorter <= length implies #[trigger] buffer.take(shorter)
        == image.subrange(offset, offset + shorter) by {
        assert(buffer.take(shorter) =~= image.subrange(offset, offset + shorter));
    }
    assert(is_match(buffer, targets, length));
    assert forall|shorter: int| 1 <= shorter < length implies !is_match(
        buffer,
        targets,
        shorter,
    ) by {
        assert(buffer.take(shorter) == image.subrange(offset, offset + shorter));
    }
    lemma_jobs_from_holds(image, signatures, start, config.window_len as nat, index, offset);
    lemma_carved_by_holds(
        image,
        targets,
        jobs_from(image, signatures, start, config.window_len as nat),
        max_len,
        offset,
        length,
    );
}

/// A scan in which no job finds a target recovers nothing.
pub proof fn lemma_no_match_no_file(
    image: Seq<u8>,
    targets: Set<Seq<char>>,
    jobs: Seq<int>,
    max_len: int,
)
    requires
        forall|i: int|
            0 <= i < jobs.len() ==> no_match(
                read_at(image, #[trigger] jobs[i], max_len),
                targets,
                max_len,
            ),
    ensures
        carved_by(image, targets, jobs, max_len).len() == 0,
    decreases jobs.len(),
{
    if jobs.len() > 0 {
        lemma_no_match_no_file(image, targets, jobs.drop_last(), max_len);
        let buffer = read_at(image, jobs.last(), max_len);
        assert(jobs[jobs.len() - 1] == jobs.last());
        lemma_shortest_match(buffer, targets, max_len);
        if shortest_match(buffer, targets, max_len) is Some {
            let length = shortest_match(buffer, targets, max_len).unwrap();
            assert(is_match(buffer, targets, length));
        }
    }
}

/// Two scans of the same image with the same signatures, targets and
/// configuration recover the same files: as many, in the same order, each
/// at the same place, with the same bytes, digest and name.
pub proof fn lemma_scan_is_repeatable(
    image: Seq<u8>,
    signatures: Seq<Seq<u8>>,
    targets: Set<Seq<char>>,
    config: ScanConfig,
    first: Seq<CarvedFile>,
    second: Seq<CarvedFile>,
)
    requires
        placements(first) == scan_result(image, signatures, targets, config),
        files_described(image, first),
        placements(second) == scan_result(image, signatures, targets, config),
        files_described(image, second),
    ensures
        first.len() == second.len(),
        forall|i: int|
            0 <= i < first.len() ==> {
                &&& (#[trigger] first[i]).start == second[i].start
                &&& first[i].length == second[i].length
                &&& first[i].digest@ == second[i].digest@
                &&& first[i].name@ == second[i].name@
            },
{
    assert(placements(first).len() == first.len());
    assert(placements(second).len() == second.len());
    assert forall|i: int| 0 <= i < first.len() implies {
        &&& (#[trigger] first[i]).start == second[i].start
        &&& first[i].length == second[i].length
        &&& first[i].digest@ == second[i].digest@
        &&& first[i].name@ == second[i].name@
    } by {
        assert(placements(first)[i] == placement(first[i]));
        assert(placements(second)[i] == placement(second[i]));
    }
}

/// Reads up to `len` bytes of `image` at `position`.
pub fn read_image(image: &[u8], position: u64, len: usize) -> (bytes: &[u8])
    ensures
        bytes@ == read_at(image@, position as int, len as int),
{
    if position >= image.len() as u64 {
        slice_subrange(image, 0, 0)
    } else {
        let start = position as usize;
        let end = if image.len() - start < len {
            image.len()
        } else {
            start + len
        };
        slice_subrange(image, start, end)
    }
}

/// Whether each of `files` is described as it lies in `image`: its digest
/// is that of its bytes, and its name is made from its digest.
pub open spec fn files_described(image: Seq<u8>, files: Seq<CarvedFile>) -> bool {
    forall|i: int|
        0 <= i < files.len() ==> {
            let file = #[trigger] files[i];
            &&& file.start + file.length <= image.len()
            &&& file.digest@ == digest_text(
                image.subrange(file.start as int, file.start + file.length),
            )
            &&& file.name@ == output_name(file.digest@)
        }
}

/// Scans an image held in memory and returns the recovered files in the
/// order in which their jobs were handed out.
pub fn scan_image(
    image: &[u8],
    signatures: &SignatureSet,
    targets: &TargetSet,
    config: &ScanConfig,
) -> (outcome: Result<Vec<CarvedFile>, ConfigError>)
    ensures
        outcome is Ok <==> config.valid(),
        outcome matches Ok(files) ==> {
            &&& placements(files@) == scan_result(image@, signatures@, targets@, *config)
            &&& files_described(image@, files@)
        },
        outcome matches Err(error) ==> error == if config.max_workers == 0 {
            ConfigError::NoWorkers
        } else {
            ConfigError::WindowLength
        },
{
    let mut scheduler = match Scheduler::new(config, signatures) {
        Ok(scheduler) => scheduler,
        Err(error) => {
            return Err(error);
        },
    };
    let ghost all = jobs_from(
        image@,
        signatures@,
        sector_floor(config.start_offset as int),
        config.window_len as nat,
    );
    let ghost max_len = config.max_carve_len as int;
    let mut files: Vec<CarvedFile> = Vec::new();
    let ghost mut done: Seq<int> = Seq::empty();
    let mut action = match scheduler.step(Event::Start) {
        Ok(action) => action,
        Err(_) => Action::Finish,
    };
    assert(done + handed_out(action) + outstanding(scheduler@, image@) =~= all);
    let mut finished = false;
    let image_len = image.len();
    while !finished
        invariant
            image@.len() == image_len,
            scheduler.wf(),
            scheduler@.wf(),
            scheduler@.max_carve_len == max_len,
            scheduler@.signatures == signatures@,
            awaited(scheduler@, action),
            finished <==> action is Finish,
            done + handed_out(action) + outstanding(scheduler@, image@) == all,
            placements(files@) == carved_by(image@, targets@, done, max_len),
            files_described(image@, files@),
        decreases
            reads_left(scheduler@, image@),
            scheduler@.queue.len(),
            scheduler@.in_flight,
            spawning(scheduler@),
    {
        let ghost before = scheduler@;
        let ghost files_before = files@;
        let event = match action {
            Action::Read { position, len } => Event::Window(
                slice_to_vec(read_image(image, position, len)),
            ),
            Action::Dispatch(job) => {
                let buffer = read_image(image, job.offset, job.max_len);
                let found = run_job(job, buffer, targets);
                proof {
                    let grown = done.push(job.offset as int);
                    assert(grown.drop_last() =~= done);
                    lemma_shortest_match(buffer@, targets@, max_len);
                    match &found {
                        Some(file) => {
                            lemma_shortest_match_unique(
                                buffer@,
                                targets@,
                                max_len,
                                file.length as int,
                            );
                            assert(buffer@.take(file.length as int) =~= image@.subrange(
                                file.start as int,
                                file.start + file.length,
                            ));
                        },
                        None => {
                            if shortest_match(buffer@, targets@, max_len) is Some {
                                let length = shortest_match(buffer@, targets@, max_len).unwrap();
                                assert(is_match(buffer@, targets@, length));
                            }
                        },
                    }
                    assert(done + handed_out(action) =~= grown);
                    done = grown;
                }
                if let Some(file) = found {
                    let ghost placed = placement(file);
                    files.push(file);
                    assert(placements(files@) =~= placements(files_before).push(placed));
                }
                Event::Spawned
            },
            Action::Wait => Event::WorkerFinished,
            Action::Finish => Event::Start,
        };
        proof {
            lemma_engine_step(image@, before, action, event);
        }
        match scheduler.step(event) {
            Ok(next) => {
                action = next;
            },
            Err(_) => {
                action = Action::Finish;
            },
        }
        proof {
            assert(done + handed_out(action) + outstanding(scheduler@, image@) =~= all);
        }
        match action {
            Action::Finish => {
                finished = true;
            },
            _ => {},
        }
    }
    assert(done =~= all);
    Ok(files)
}

} // verus!
