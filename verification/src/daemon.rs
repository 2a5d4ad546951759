//! Which interfaces the collector captures on, and the order of what it does.

use vstd::prelude::*;

use crate::text::{has_prefix, starts_with};

verus! {

/// Whether this is the name of a capture interface of usbmon.
pub open spec fn is_usbmon(name: Seq<char>) -> bool {
    has_prefix(name, "usbmon"@)
}

/// An interface is one of usbmon exactly where the six letters `usbmon` are the
/// first of its name.
pub proof fn lemma_usbmon_names(name: Seq<char>)
    ensures
        is_usbmon(name) <==> name.len() >= 6 && name[0] == 'u' && name[1] == 's' && name[2] == 'b'
            && name[3] == 'm' && name[4] == 'o' && name[5] == 'n',
{
    reveal_strlit("usbmon");
    if name.len() >= 6 && name[0] == 'u' && name[1] == 's' && name[2] == 'b' && name[3] == 'm'
        && name[4] == 'o' && name[5] == 'n' {
        assert(name.take(6) =~= "usbmon"@);
    }
    if is_usbmon(name) {
        assert(name.take(6) == "usbmon"@);
        assert(forall|i: int| 0 <= i < 6 ==> name.take(6)[i] == name[i]);
        assert(name[0] == name.take(6)[0] && name[1] == name.take(6)[1] && name[2] == name.take(6)[2]
            && name[3] == name.take(6)[3] && name[4] == name.take(6)[4] && name[5]
            == name.take(6)[5]);
    }
}

/// The names of the capture interfaces of usbmon among `names`, in order.
pub fn usbmon_devices(names: &Vec<String>) -> (usbmon: Vec<String>)
    ensures
        usbmon@ == names@.filter(|name: String| is_usbmon(name@)),
{
    let mut usbmon: Vec<String> = Vec::new();
    let ghost wanted = |name: String| is_usbmon(name@);
    let mut i: usize = 0;
    assert(names@.take(0).filter(wanted) =~= Seq::<String>::empty()) by {
        reveal(Seq::filter);
    }
    while i < names.len()
        invariant
            0 <= i <= names@.len(),
            wanted == (|name: String| is_usbmon(name@)),
            usbmon@ == names@.take(i as int).filter(wanted),
        decreases names@.len() - i,
    {
        proof {
            reveal(Seq::filter);
            assert(names@.take(i + 1).drop_last() =~= names@.take(i as int));
        }
        if starts_with(names[i].as_str(), "usbmon") {
            usbmon.push(names[i].clone());
        }
        i = i + 1;
    }
    assert(names@.take(names@.len() as int) =~= names@);
    usbmon
}

/// Where the reporting loop stands.
#[derive(Clone, Copy, Debug, PartialEq, Eq, Structural)]
pub enum Phase {
    /// About to start a reporting interval.
    Starting,
    /// Within a reporting interval, before its deadline.
    Waiting,
    /// About to take the counters out and write them.
    Flushing,
    /// Done; the collector shuts down.
    Stopped,
}

/// The phase that follows, given whether a stop was asked for and whether the
/// deadline of the interval has passed.
pub open spec fn phase_after(phase: Phase, stop: bool, deadline_passed: bool) -> Phase {
    match phase {
        Phase::Starting => if stop {
            Phase::Stopped
        } else {
            Phase::Waiting
        },
        Phase::Waiting => if stop || deadline_passed {
            Phase::Flushing
        } else {
            Phase::Waiting
        },
        Phase::Flushing => Phase::Starting,
        Phase::Stopped => Phase::Stopped,
    }
}

/// Moves the reporting loop on by one step.
pub fn next_phase(phase: Phase, stop: bool, deadline_passed: bool) -> (next: Phase)
    ensures
        next == phase_after(phase, stop, deadline_passed),
{
    match phase {
        Phase::Starting => {
            if stop {
                Phase::Stopped
            } else {
                Phase::Waiting
            }
        },
        Phase::Waiting => {
            if !deadline_passed && !stop {
                Phase::Waiting
            } else {
                Phase::Flushing
            }
        },
        Phase::Flushing => Phase::Starting,
        Phase::Stopped => Phase::Stopped,
    }
}

/// Whether `phases` is a run of the reporting loop from its start, where `stop`
/// and `passed` say for each step whether a stop was asked for and whether the
/// deadline had passed.
pub open spec fn is_run(phases: Seq<Phase>, stop: Seq<bool>, passed: Seq<bool>) -> bool {
    &&& phases.len() > 0
    &&& phases.len() <= stop.len() + 1
    &&& phases.len() <= passed.len() + 1
    &&& phases[0] == Phase::Starting
    &&& forall|i: int|
        0 <= i < phases.len() - 1 ==> #[trigger] phases[i + 1] == phase_after(
            phases[i],
            stop[i],
            passed[i],
        )
}

/// No interval goes unreported: between the waiting of a run and its end lies a
/// flush.
pub proof fn lemma_flush_before_stop(
    phases: Seq<Phase>,
    stop: Seq<bool>,
    passed: Seq<bool>,
    waiting: int,
    stopped: int,
)
    requires
        is_run(phases, stop, passed),
        0 <= waiting < stopped < phases.len(),
        phases[waiting] == Phase::Waiting,
        phases[stopped] == Phase::Stopped,
    ensures
        exists|i: int| waiting < i < stopped && #[trigger] phases[i] == Phase::Flushing,
    decreases stopped - waiting,
{
    assert(phases[waiting + 1] == phase_after(phases[waiting], stop[waiting], passed[waiting]));
    if phases[waiting + 1] == Phase::Waiting {
        lemma_flush_before_stop(phases, stop, passed, waiting + 1, stopped);
    }
}

/// Once a stop is asked for, the loop ends within three steps: an interval under
/// way is flushed, and no other is started.
pub proof fn lemma_stop_is_prompt(phase: Phase, a: bool, b: bool, c: bool)
    ensures
        ({
            let first = phase_after(phase, true, a);
            let second = phase_after(first, true, b);
            let third = phase_after(second, true, c);
            &&& first != Phase::Waiting && second != Phase::Waiting && third == Phase::Stopped
            &&& phase == Phase::Waiting ==> first == Phase::Flushing
        }),
{
}

/// Without a stop the loop does not end, and an interval lasts until its
/// deadline.
pub proof fn lemma_runs_until_stop(phase: Phase, deadline_passed: bool)
    requires
        phase != Phase::Stopped,
    ensures
        phase_after(phase, false, deadline_passed) != Phase::Stopped,
        phase == Phase::Waiting ==> (phase_after(phase, false, deadline_passed) == Phase::Flushing
            <==> deadline_passed),
{
}

/// An interval is always waited in: without a stop the loop goes from its start to
/// waiting, whether or not an earlier deadline has passed.
pub proof fn lemma_interval_is_waited_in(deadline_passed: bool)
    ensures
        phase_after(Phase::Starting, false, deadline_passed) == Phase::Waiting,
{
}

/// A flush comes out of a waiting phase and of no other, and only where the
/// deadline has passed or a stop is asked for.
pub proof fn lemma_flush_comes_from_waiting(phase: Phase, stop: bool, deadline_passed: bool)
    ensures
        phase_after(phase, stop, deadline_passed) == Phase::Flushing <==> phase == Phase::Waiting && (
        stop || deadline_passed),
{
}

/// Waiting is begun at the start of an interval and kept up until the deadline
/// passes or a stop is asked for; nothing else leads to it.
pub proof fn lemma_waiting_comes_from_start(phase: Phase, stop: bool, deadline_passed: bool)
    ensures
        phase_after(phase, stop, deadline_passed) == Phase::Waiting <==> !stop && (phase
            == Phase::Starting || phase == Phase::Waiting && !deadline_passed),
{
}

/// Behind a flush a new interval is started, whatever happens meanwhile, and
/// nowhere else.
pub proof fn lemma_start_comes_from_flush(phase: Phase, stop: bool, deadline_passed: bool)
    ensures
        phase_after(phase, stop, deadline_passed) == Phase::Starting <==> phase == Phase::Flushing,
{
}

/// The loop ends where a stop is asked for at the start of an interval, and then
/// stays ended.
pub proof fn lemma_end_comes_from_start(phase: Phase, stop: bool, deadline_passed: bool)
    ensures
        phase_after(phase, stop, deadline_passed) == Phase::Stopped <==> phase == Phase::Stopped || (
        phase == Phase::Starting && stop),
{
}

/// In a run of the loop each flush directly follows a waiting phase of the interval
/// that it reports.
pub proof fn lemma_flush_follows_waiting(
    phases: Seq<Phase>,
    stop: Seq<bool>,
    passed: Seq<bool>,
    i: int,
)
    requires
        phases.len() > 0,
        phases[0] == Phase::Starting,
        forall|j: int|
            0 <= j < phases.len() - 1 ==> #[trigger] phases[j + 1] == phase_after(
                phases[j],
                stop[j],
                passed[j],
            ),
        0 <= i < phases.len(),
        phases[i] == Phase::Flushing,
    ensures
        i >= 2,
        phases[i - 1] == Phase::Waiting,
        stop[i - 1] || passed[i - 1],
{
    let j = i - 1;
    assert(phases[j + 1] == phase_after(phases[j], stop[j], passed[j]));
}

/// In a run of the loop two flushes are never closer than an interval: between them
/// another interval was started and waited in.
pub proof fn lemma_flushes_kept_apart(
    phases: Seq<Phase>,
    stop: Seq<bool>,
    passed: Seq<bool>,
    i: int,
    k: int,
)
    requires
        phases.len() > 0,
        phases[0] == Phase::Starting,
        forall|j: int|
            0 <= j < phases.len() - 1 ==> #[trigger] phases[j + 1] == phase_after(
                phases[j],
                stop[j],
                passed[j],
            ),
        0 <= i < k < phases.len(),
        phases[i] == Phase::Flushing,
        phases[k] == Phase::Flushing,
    ensures
        k >= i + 3,
        phases[i + 1] == Phase::Starting,
        phases[i + 2] == Phase::Waiting,
{
    assert(phases[i + 1] == phase_after(phases[i], stop[i], passed[i]));
    if i + 1 < k {
        let j = i + 1;
        assert(phases[j + 1] == phase_after(phases[j], stop[j], passed[j]));
        if phases[i + 2] == Phase::Stopped {
            lemma_stays_stopped(phases, stop, passed, i + 2, k);
        }
    }
}

proof fn lemma_stays_stopped(
    phases: Seq<Phase>,
    stop: Seq<bool>,
    passed: Seq<bool>,
    i: int,
    k: int,
)
    requires
        forall|j: int|
            0 <= j < phases.len() - 1 ==> #[trigger] phases[j + 1] == phase_after(
                phases[j],
                stop[j],
                passed[j],
            ),
        0 <= i <= k < phases.len(),
        phases[i] == Phase::Stopped,
    ensures
        phases[k] == Phase::Stopped,
    decreases k - i,
{
    if i < k {
        assert(phases[i + 1] == phase_after(phases[i], stop[i], passed[i]));
        lemma_stays_stopped(phases, stop, passed, i + 1, k);
    }
}

} // verus!
