//! The pipeline: the walker and the emitter joined by the bounded queue,
//! its life from start to end, and a run of it over a tree held in memory.

use vstd::prelude::*;
use crate::emitter::{record_for, Emitter};
use crate::queue::{BoundedQueue, Offer, Take};
use crate::snapshot::Snapshot;
use crate::survey::{published, survey, Job, JobSpec};

verus! {

/// Where a pipeline stands.
#[derive(Clone, Copy, Debug, PartialEq, Eq, Structural)]
pub enum Phase {
    /// Not started.
    Idle,
    /// The walker and the emitter both run.
    Running,
    /// The walker has finished and closed the queue; the emitter takes out
    /// what still waits.
    Draining,
    /// Every published file has become a record.
    Closed,
    /// The walker or the emitter has failed.
    Failed,
}

/// What happens to a pipeline.
#[derive(Clone, Copy, Debug, PartialEq, Eq, Structural)]
pub enum Event {
    /// The walker and the emitter have started.
    Started,
    /// The walker has listed every directory and closed the queue.
    WalkerFinished,
    /// The walker could not list a directory, or found the queue
    /// disconnected.
    WalkerFailed,
    /// The emitter has found the queue finished.
    EmitterFinished,
    /// The emitter could not read a file or write a record.
    EmitterFailed,
}

/// The phase that follows `phase` on `event`. Nothing leads out of
/// `Closed` or `Failed`. Before that, a failure of either side leads to
/// `Failed`, and any other event that does not fit the phase leaves it as
/// it is.
pub open spec fn next_phase(phase: Phase, event: Event) -> Phase {
    match (phase, event) {
        (Phase::Closed, _) => Phase::Closed,
        (Phase::Failed, _) => Phase::Failed,
        (_, Event::WalkerFailed) => Phase::Failed,
        (_, Event::EmitterFailed) => Phase::Failed,
        (Phase::Idle, Event::Started) => Phase::Running,
        (Phase::Running, Event::WalkerFinished) => Phase::Draining,
        (Phase::Draining, Event::EmitterFinished) => Phase::Closed,
        _ => phase,
    }
}

/// Moves a pipeline on by one event.
pub fn advance(phase: Phase, event: Event) -> (next: Phase)
    ensures
        next == next_phase(phase, event),
{
    match (phase, event) {
        (Phase::Closed, _) => Phase::Closed,
        (Phase::Failed, _) => Phase::Failed,
        (_, Event::WalkerFailed) => Phase::Failed,
        (_, Event::EmitterFailed) => Phase::Failed,
        (Phase::Idle, Event::Started) => Phase::Running,
        (Phase::Running, Event::WalkerFinished) => Phase::Draining,
        (Phase::Draining, Event::EmitterFinished) => Phase::Closed,
        _ => phase,
    }
}

/// The exit status that a run ends with: 0 where the pipeline is closed,
/// 1 otherwise.
pub fn exit_status(phase: Phase) -> (status: u8)
    ensures
        status == (if phase == Phase::Closed {
            0u8
        } else {
            1u8
        }),
{
    match phase {
        Phase::Closed => 0,
        _ => 1,
    }
}

/// The phase reached from `phase` by the events `events`, in order.
pub open spec fn phase_after(phase: Phase, events: Seq<Event>) -> Phase
    decreases events.len(),
{
    if events.len() == 0 {
        phase
    } else {
        phase_after(next_phase(phase, events[0]), events.drop_first())
    }
}

/// A pipeline that has ended stays as it ended, whatever happens.
pub proof fn ended_pipeline_stays(phase: Phase, events: Seq<Event>)
    requires
        phase == Phase::Closed || phase == Phase::Failed,
    ensures
        phase_after(phase, events) == phase,
    decreases events.len(),
{
    if events.len() > 0 {
        ended_pipeline_stays(phase, events.drop_first());
    }
}

/// A pipeline closes only after it started, the walker finished and the
/// emitter finished, in that order, with no failure of either side before
/// the emitter finished. The places of the three events are returned.
pub proof fn closing_takes_a_full_run(events: Seq<Event>) -> (at: (int, int, int))
    requires
        phase_after(Phase::Idle, events) == Phase::Closed,
    ensures
        0 <= at.0 < at.1 < at.2 < events.len(),
        events[at.0] == Event::Started,
        events[at.1] == Event::WalkerFinished,
        events[at.2] == Event::EmitterFinished,
        forall|k: int|
            0 <= k < at.2 ==> #[trigger] events[k] != Event::WalkerFailed && events[k]
                != Event::EmitterFailed,
{
    assert(events.skip(0) =~= events);
    let a = first_leaving(Phase::Idle, events, 0);
    ended_pipeline_stays(Phase::Failed, events.skip(a + 1));
    assert(events[a] == Event::Started);
    let b = first_leaving(Phase::Running, events, a + 1);
    ended_pipeline_stays(Phase::Failed, events.skip(b + 1));
    assert(events[b] == Event::WalkerFinished);
    let c = first_leaving(Phase::Draining, events, b + 1);
    ended_pipeline_stays(Phase::Failed, events.skip(c + 1));
    assert(events[c] == Event::EmitterFinished);
    assert forall|k: int| 0 <= k < c implies #[trigger] events[k] != Event::WalkerFailed
        && events[k] != Event::EmitterFailed by {
        if k < a {
            assert(next_phase(Phase::Idle, events[k]) == Phase::Idle);
        } else if a < k < b {
            assert(next_phase(Phase::Running, events[k]) == Phase::Running);
        } else if k > b {
            assert(next_phase(Phase::Draining, events[k]) == Phase::Draining);
        }
    }
    (a, b, c)
}

/// The place of the first event from `from` on that leads out of `phase`,
/// in a run that stands in `phase` at `from` and ends closed.
proof fn first_leaving(phase: Phase, events: Seq<Event>, from: int) -> (at: int)
    requires
        0 <= from <= events.len(),
        phase == Phase::Idle || phase == Phase::Running || phase == Phase::Draining,
        phase_after(phase, events.skip(from)) == Phase::Closed,
    ensures
        from <= at < events.len(),
        next_phase(phase, events[at]) != phase,
        forall|k: int| from <= k < at ==> next_phase(phase, #[trigger] events[k]) == phase,
        phase_after(next_phase(phase, events[at]), events.skip(at + 1)) == Phase::Closed,
    decreases events.len() - from,
{
    let rest = events.skip(from);
    assert(rest.len() > 0);
    assert(rest[0] == events[from]);
    assert(rest.drop_first() =~= events.skip(from + 1));
    if next_phase(phase, events[from]) != phase {
        from
    } else {
        first_leaving(phase, events, from + 1)
    }
}

/// What a run has written and how it ended.
#[derive(Debug)]
pub struct Outcome {
    /// The records written, one after the other.
    pub output: Vec<u8>,
    /// `Closed` after a full run, `Failed` otherwise.
    pub phase: Phase,
}

/// The records for `jobs`, in order, up to the first file that cannot be
/// read: what the emitter has written when it stops.
pub open spec fn transcript(jobs: Seq<JobSpec>) -> Seq<u8>
    decreases jobs.len(),
{
    if jobs.len() == 0 {
        Seq::empty()
    } else {
        match jobs[0].content {
            Some(data) => record_for(jobs[0].path, data) + transcript(jobs.drop_first()),
            None => Seq::empty(),
        }
    }
}

/// Every file of `jobs` can be read.
pub open spec fn all_readable(jobs: Seq<JobSpec>) -> bool {
    forall|i: int| 0 <= i < jobs.len() ==> (#[trigger] jobs[i]).content is Some
}

/// The emitter's part for one published file: its record, or `None` where
/// the file cannot be read.
pub fn emit(emitter: &Emitter, job: &Job) -> (record: Option<Vec<u8>>)
    ensures
        match job.deep_view().content {
            Some(data) => record is Some && record->0@ == record_for(job.path@, data),
            None => record is None,
        },
{
    match &job.content {
        Some(data) => Some(emitter.record(job.path.as_slice(), data.as_slice())),
        None => None,
    }
}

/// Runs the published files `jobs` through a queue with room for
/// `capacity` items. The walker offers them in order and waits where the
/// queue is full; while it waits the emitter takes one out and writes its
/// record. A file that cannot be read stops the emitter, which
/// disconnects the queue, and the walker fails at its next offer. Where
/// all has been offered the walker closes the queue and the emitter
/// drains it.
pub fn run(jobs: &Vec<Job>, capacity: usize) -> (outcome: Outcome)
    requires
        capacity > 0,
    ensures
        outcome.output@ == transcript(jobs.deep_view()),
        outcome.phase == (if all_readable(jobs.deep_view()) {
            Phase::Closed
        } else {
            Phase::Failed
        }),
{
    let ghost all = jobs.deep_view();
    let emitter = Emitter::new();
    let mut queue: BoundedQueue<&Job> = BoundedQueue::new(capacity);
    let mut output: Vec<u8> = Vec::new();
    let mut phase = advance(Phase::Idle, Event::Started);
    let mut offered: usize = 0;
    let mut written: usize = 0;
    proof {
        assert(all.skip(0) =~= all);
        assert(output@ + transcript(all.skip(0)) =~= transcript(all));
    }
    while offered < jobs.len()
        invariant
            all == jobs.deep_view(),
            capacity > 0,
            written <= offered <= jobs.len(),
            phase == Phase::Running || phase == Phase::Failed,
            queue@.capacity == capacity,
            !queue@.closed,
            queue@.disconnected == (phase == Phase::Failed),
            forall|i: int| 0 <= i < written ==> (#[trigger] all[i]).content is Some,
            phase == Phase::Running ==> queue@.items == Seq::new(
                (offered - written) as nat,
                |k: int| &jobs@[written + k],
            ),
            phase == Phase::Running ==> output@ + transcript(all.skip(written as int))
                == transcript(all),
            phase == Phase::Failed ==> output@ == transcript(all) && !all_readable(all),
        ensures
            phase == Phase::Running ==> offered == jobs.len(),
        decreases 2 * (jobs.len() - offered) + queue@.items.len() + (if phase == Phase::Running {
            1nat
        } else {
            0nat
        }),
    {
        let ghost waiting = queue@.items;
        match queue.offer(&jobs[offered]) {
            Offer::Accepted => {
                proof {
                    assert(queue@.items =~= Seq::new(
                        (offered + 1 - written) as nat,
                        |k: int| &jobs@[written + k],
                    ));
                }
                offered += 1;
            },
            Offer::Full(_) => {
                match queue.take() {
                    Take::Item(job) => {
                        proof {
                            assert(job == &jobs@[written as int]);
                            assert(all[written as int] == job.deep_view());
                            assert(all.skip(written as int)[0] == all[written as int]);
                            assert(all.skip(written as int).drop_first() =~= all.skip(
                                written + 1,
                            ));
                        }
                        match emit(&emitter, job) {
                            Some(mut record) => {
                                let ghost before = output@;
                                output.append(&mut record);
                                proof {
                                    let text = record_for(job.path@, job.deep_view().content->0);
                                    assert(output@ == before + text);
                                    assert((before + text) + transcript(all.skip(written + 1))
                                        =~= before + (text + transcript(all.skip(written + 1))));
                                    assert(queue@.items =~= Seq::new(
                                        (offered - (written + 1)) as nat,
                                        |k: int| &jobs@[written + 1 + k],
                                    ));
                                }
                                written += 1;
                            },
                            None => {
                                proof {
                                    assert(transcript(all.skip(written as int))
                                        =~= Seq::<u8>::empty());
                                    assert(output@ + Seq::<u8>::empty() =~= output@);
                                }
                                queue.disconnect();
                                phase = advance(phase, Event::EmitterFailed);
                            },
                        }
                    },
                    _ => {},
                }
            },
            Offer::Disconnected(_) => {
                phase = advance(phase, Event::WalkerFailed);
                break ;
            },
        }
    }
    if phase == Phase::Running {
        queue.close();
        phase = advance(phase, Event::WalkerFinished);
    }
    while phase == Phase::Draining
        invariant
            all == jobs.deep_view(),
            written <= offered <= jobs.len(),
            phase == Phase::Draining ==> offered == jobs.len(),
            phase == Phase::Draining || phase == Phase::Closed || phase == Phase::Failed,
            forall|i: int| 0 <= i < written ==> (#[trigger] all[i]).content is Some,
            phase == Phase::Draining ==> queue@.closed && queue@.items == Seq::new(
                (offered - written) as nat,
                |k: int| &jobs@[written + k],
            ),
            phase == Phase::Draining ==> output@ + transcript(all.skip(written as int))
                == transcript(all),
            phase == Phase::Closed ==> output@ == transcript(all) && all_readable(all),
            phase == Phase::Failed ==> output@ == transcript(all) && !all_readable(all),
        decreases offered - written + (if phase == Phase::Draining {
            1nat
        } else {
            0nat
        }),
    {
        match queue.take() {
            Take::Item(job) => {
                proof {
                    assert(job == &jobs@[written as int]);
                    assert(all[written as int] == job.deep_view());
                    assert(all.skip(written as int)[0] == all[written as int]);
                    assert(all.skip(written as int).drop_first() =~= all.skip(written + 1));
                }
                match emit(&emitter, job) {
                    Some(mut record) => {
                        let ghost before = output@;
                        output.append(&mut record);
                        proof {
                            let text = record_for(job.path@, job.deep_view().content->0);
                            assert(output@ == before + text);
                            assert((before + text) + transcript(all.skip(written + 1))
                                =~= before + (text + transcript(all.skip(written + 1))));
                            assert(queue@.items =~= Seq::new(
                                (offered - (written + 1)) as nat,
                                |k: int| &jobs@[written + 1 + k],
                            ));
                        }
                        written += 1;
                    },
                    None => {
                        proof {
                            assert(transcript(all.skip(written as int)) =~= Seq::<u8>::empty());
                            assert(output@ + Seq::<u8>::empty() =~= output@);
                        }
                        queue.disconnect();
                        phase = advance(phase, Event::EmitterFailed);
                    },
                }
            },
            Take::Finished => {
                proof {
                    assert(written == offered);
                    assert(all.skip(written as int) =~= Seq::<JobSpec>::empty());
                    assert(output@ + Seq::<u8>::empty() =~= output@);
                }
                phase = advance(phase, Event::EmitterFinished);
            },
            Take::Empty => {},
        }
    }
    Outcome { output, phase }
}

/// Runs the whole pipeline over a tree held in memory, found at the path
/// `root`: what is written is the record of every published file, in the
/// order published, up to the first that cannot be read, and the run ends
/// closed where there is no such file and failed where there is one.
pub fn flatten(tree: &Snapshot, root: &[u8], suffix: &[u8], capacity: usize) -> (outcome: Outcome)
    requires
        capacity > 0,
    ensures
        outcome.output@ == transcript(published(*tree, root@, suffix@)),
        outcome.phase == (if all_readable(published(*tree, root@, suffix@)) {
            Phase::Closed
        } else {
            Phase::Failed
        }),
{
    let jobs = survey(tree, root, suffix);
    run(&jobs, capacity)
}

} // verus!
