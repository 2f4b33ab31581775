//! The walker and the emitter taking turns in any order: whatever the
//! order, nothing that was published is lost, written twice or written out
//! of turn, and as long as the run has not ended one of the two can go on.

use vstd::prelude::*;
use crate::emitter::record_for;
use crate::pipeline::{all_readable, next_phase, transcript, Event, Phase};
use crate::queue::{Offer, QueueState, Take};
use crate::survey::JobSpec;

verus! {

/// A run in progress, as a value.
pub struct Transfer {
    /// The files whose records have been written, in order.
    pub emitted: Seq<JobSpec>,
    /// The queue between the two sides.
    pub queue: QueueState<JobSpec>,
    /// The files that the walker has still to offer, in order.
    pub unsent: Seq<JobSpec>,
    /// What has been written.
    pub written: Seq<u8>,
    /// Where the run stands.
    pub phase: Phase,
}

/// A turn of one of the two sides.
pub enum Move {
    /// The walker offers its next file to the queue.
    Offer,
    /// The walker closes the queue, having offered everything.
    Close,
    /// The emitter takes a file out of the queue and writes its record.
    Take,
}

/// A run at its start: everything published is still to be offered.
pub open spec fn started(jobs: Seq<JobSpec>, capacity: nat) -> Transfer {
    Transfer {
        emitted: Seq::empty(),
        queue: QueueState {
            items: Seq::empty(),
            capacity,
            closed: false,
            disconnected: false,
        },
        unsent: jobs,
        written: Seq::empty(),
        phase: Phase::Running,
    }
}

/// The run after one turn. A turn that cannot be taken now, because the
/// queue is full or empty or the side has nothing to do, leaves the run as
/// it is: that side waits.
pub open spec fn moved(t: Transfer, m: Move) -> Transfer {
    match m {
        Move::Offer => if t.phase == Phase::Running && t.unsent.len() > 0 {
            match t.queue.answer_to_offer(t.unsent[0]) {
                Offer::Accepted => Transfer {
                    queue: t.queue.after_offer(t.unsent[0]),
                    unsent: t.unsent.drop_first(),
                    ..t
                },
                Offer::Full(_) => t,
                Offer::Disconnected(_) => Transfer {
                    phase: next_phase(t.phase, Event::WalkerFailed),
                    ..t
                },
            }
        } else {
            t
        },
        Move::Close => if t.phase == Phase::Running && t.unsent.len() == 0 {
            Transfer {
                queue: t.queue.after_close(),
                phase: next_phase(t.phase, Event::WalkerFinished),
                ..t
            }
        } else {
            t
        },
        Move::Take => if t.phase == Phase::Running || t.phase == Phase::Draining {
            match t.queue.answer_to_take() {
                Take::Item(job) => match job.content {
                    Some(data) => Transfer {
                        emitted: t.emitted.push(job),
                        queue: t.queue.after_take(),
                        written: t.written + record_for(job.path, data),
                        ..t
                    },
                    None => Transfer {
                        queue: t.queue.after_take().after_disconnect(),
                        phase: next_phase(t.phase, Event::EmitterFailed),
                        ..t
                    },
                },
                Take::Empty => t,
                Take::Finished => Transfer {
                    phase: next_phase(t.phase, Event::EmitterFinished),
                    ..t
                },
            }
        } else {
            t
        },
    }
}

/// The run after the turns `moves`, in order.
pub open spec fn after(t: Transfer, moves: Seq<Move>) -> Transfer
    decreases moves.len(),
{
    if moves.len() == 0 {
        t
    } else {
        after(moved(t, moves[0]), moves.drop_first())
    }
}

/// What holds of a run over the published files `jobs` at every moment.
/// While it goes on, the files written, the files in the queue and the
/// files still to be offered are, in this order, the files published; no
/// more wait in the queue than it has room for; and what is written is the
/// records of the files written. When it has ended, what is written is
/// the records up to the first file that cannot be read, and it has ended
/// closed where there is no such file and failed where there is one.
pub open spec fn in_order(t: Transfer, jobs: Seq<JobSpec>) -> bool {
    match t.phase {
        Phase::Idle => false,
        Phase::Running | Phase::Draining => {
            &&& t.emitted + t.queue.items + t.unsent == jobs
            &&& all_readable(t.emitted)
            &&& t.written == transcript(t.emitted)
            &&& t.queue.items.len() <= t.queue.capacity
            &&& !t.queue.disconnected
            &&& t.queue.closed == (t.phase == Phase::Draining)
            &&& t.phase == Phase::Draining ==> t.unsent.len() == 0
        },
        Phase::Closed => t.written == transcript(jobs) && all_readable(jobs),
        Phase::Failed => t.written == transcript(jobs) && !all_readable(jobs),
    }
}

/// The number of turns that a run can still take at most.
pub open spec fn turns_left(t: Transfer) -> nat {
    match t.phase {
        Phase::Running => 2 * t.unsent.len() + t.queue.items.len() + 2,
        Phase::Draining => t.queue.items.len() + 1,
        _ => 0,
    }
}

/// The records of files that can all be read, followed by those of other
/// files.
proof fn transcript_of_readable(done: Seq<JobSpec>, rest: Seq<JobSpec>)
    requires
        all_readable(done),
    ensures
        transcript(done + rest) == transcript(done) + transcript(rest),
    decreases done.len(),
{
    if done.len() == 0 {
        assert(done + rest =~= rest);
        assert(transcript(done) + transcript(rest) =~= transcript(rest));
    } else {
        let tail = done.drop_first();
        assert(done[0].content is Some);
        assert forall|i: int| 0 <= i < tail.len() implies (#[trigger] tail[i]).content is Some by {
            assert(tail[i] == done[i + 1]);
        }
        transcript_of_readable(tail, rest);
        assert((done + rest).drop_first() =~= tail + rest);
        assert((done + rest)[0] == done[0]);
        let first = record_for(done[0].path, done[0].content->0);
        assert(first + (transcript(tail) + transcript(rest)) =~= (first + transcript(tail))
            + transcript(rest));
    }
}

/// A run is in order when it starts.
pub proof fn starts_in_order(jobs: Seq<JobSpec>, capacity: nat)
    ensures
        in_order(started(jobs, capacity), jobs),
{
    let t = started(jobs, capacity);
    assert(t.emitted + t.queue.items + t.unsent =~= jobs);
}

/// A turn keeps a run in order.
pub proof fn stays_in_order(t: Transfer, jobs: Seq<JobSpec>, m: Move)
    requires
        in_order(t, jobs),
    ensures
        in_order(moved(t, m), jobs),
{
    let next = moved(t, m);
    if next != t {
        match m {
            Move::Offer => {
                assert(next.emitted + next.queue.items + next.unsent =~= t.emitted
                    + t.queue.items + t.unsent);
            },
            Move::Close => {},
            Move::Take => {
                match t.queue.answer_to_take() {
                    Take::Item(job) => {
                        let behind = t.queue.items.drop_first() + t.unsent;
                        assert(jobs =~= t.emitted + (seq![job] + behind));
                        match job.content {
                            Some(data) => {
                                assert(next.emitted + next.queue.items + next.unsent =~= jobs);
                                assert forall|i: int| 0 <= i < next.emitted.len() implies (
                                #[trigger] next.emitted[i]).content is Some by {
                                    if i < t.emitted.len() {
                                        assert(next.emitted[i] == t.emitted[i]);
                                    }
                                }
                                assert(next.emitted =~= t.emitted + seq![job]);
                                transcript_of_readable(t.emitted, seq![job]);
                                assert(seq![job].drop_first() =~= Seq::<JobSpec>::empty());
                                assert(transcript(seq![job].drop_first())
                                    =~= Seq::<u8>::empty());
                                assert(seq![job][0] == job);
                                assert(transcript(seq![job]) =~= record_for(job.path, data));
                            },
                            None => {
                                transcript_of_readable(t.emitted, seq![job] + behind);
                                assert(transcript(seq![job] + behind) =~= Seq::<u8>::empty());
                                assert(t.written + Seq::<u8>::empty() =~= t.written);
                                assert(jobs[t.emitted.len() as int] == job);
                            },
                        }
                    },
                    Take::Empty => {},
                    Take::Finished => {
                        assert(t.emitted + t.queue.items + t.unsent =~= t.emitted);
                    },
                }
            },
        }
    }
}

/// Whatever turns the two sides take, and in whatever order, the run
/// stays in order: nothing published is lost, written twice or written out
/// of turn.
pub proof fn any_turns_keep_order(jobs: Seq<JobSpec>, capacity: nat, moves: Seq<Move>)
    ensures
        in_order(after(started(jobs, capacity), moves), jobs),
{
    starts_in_order(jobs, capacity);
    turns_keep_order(started(jobs, capacity), jobs, moves);
}

/// Turns keep a run in order.
proof fn turns_keep_order(t: Transfer, jobs: Seq<JobSpec>, moves: Seq<Move>)
    requires
        in_order(t, jobs),
    ensures
        in_order(after(t, moves), jobs),
    decreases moves.len(),
{
    if moves.len() > 0 {
        stays_in_order(t, jobs, moves[0]);
        turns_keep_order(moved(t, moves[0]), jobs, moves.drop_first());
    }
}

/// A turn either leaves a run as it is or brings it nearer to its end.
pub proof fn turns_run_out(t: Transfer, jobs: Seq<JobSpec>, m: Move)
    requires
        in_order(t, jobs),
    ensures
        moved(t, m) == t || turns_left(moved(t, m)) < turns_left(t),
{
}

/// A run that has not ended is never stuck: where the queue has room for
/// at least one item, one of the two sides can take a turn that brings
/// the run nearer to its end. The turn is returned.
pub proof fn never_stuck(t: Transfer, jobs: Seq<JobSpec>) -> (m: Move)
    requires
        in_order(t, jobs),
        t.queue.capacity > 0,
        t.phase == Phase::Running || t.phase == Phase::Draining,
    ensures
        turns_left(moved(t, m)) < turns_left(t),
{
    if t.queue.items.len() > 0 {
        Move::Take
    } else if t.phase == Phase::Draining {
        Move::Take
    } else if t.unsent.len() > 0 {
        Move::Offer
    } else {
        Move::Close
    }
}

} // verus!
