//! The control loop as a state machine. Each cycle the loop reads one
//! illuminance sample, filters it, maps it through the response curve,
//! quantizes it, asks for the level to be written when one is emitted, and
//! then blocks on the pause switch for one cadence period. A pause event
//! suspends sampling until the next event resumes it.
//!
//! The machine is driven from outside: `step` consumes one external
//! occurrence (a sensor read result or a poll result) and answers with the
//! next thing to do. The surrounding process performs the I/O and feeds the
//! outcome back in; `main_loop` replays any finite run of such occurrences.
use vstd::prelude::*;

verus! {

use crate::SCALE;
use crate::kalman::Kalman;
use crate::kalman::spec_processed;
use crate::light::LightConvertor;
use crate::light::map_milli;
use crate::discrete_value::DiscreteValue;
use crate::discrete_value::spec_level;

/// While paused the loop wakes only this often (seconds) to look for the
/// resume event.
pub const PAUSED_POLL_SECONDS: u64 = 3600;

/// What the loop is blocked on.
#[derive(Clone, Copy, Debug, PartialEq, Eq, Structural)]
pub enum LoopMode {
    /// About to sample: the next occurrence must be a read result.
    Active,
    /// The cycle is done: the next occurrence must be a cadence poll result.
    AwaitingPoll,
    /// Suspended: the next occurrence must be a long poll result.
    Paused,
}

/// One external occurrence: the outcome of a sensor read (`None` when the
/// read or its parse failed), or of a poll on the pause switch (`true` when
/// an event arrived within the timeout).
#[derive(Clone, Copy, Debug, PartialEq, Eq)]
pub enum LoopEvent {
    Sample(Option<u32>),
    Poll(bool),
}

/// The next piece of outside work the loop asks for.
#[derive(Clone, Copy, Debug, PartialEq, Eq, Structural)]
pub enum LoopAction {
    /// Read the sensor and feed back `Sample`.
    ReadSensor,
    /// Write the level to the actuator, then poll the pause switch for the
    /// given timeout (seconds) and feed back `Poll`.
    WriteThenWait(u32, u64),
    /// Poll the pause switch for the given timeout (seconds) and feed back
    /// `Poll`.
    Wait(u64),
}

/// Which occurrence each mode accepts.
pub open spec fn expects(mode: LoopMode, ev: LoopEvent) -> bool {
    match mode {
        LoopMode::Active => ev is Sample,
        LoopMode::AwaitingPoll => ev is Poll,
        LoopMode::Paused => ev is Poll,
    }
}

/// The controller: the three pipeline stages, the cadence, and the mode.
pub struct ControlLoop {
    pub filter: Kalman,
    pub curve: LightConvertor,
    pub quantizer: DiscreteValue,
    /// Sampling cadence (seconds): the timeout of the per-cycle poll.
    pub check_period_seconds: u64,
    pub mode: LoopMode,
}

/// The successor state and requested action for one occurrence.
pub open spec fn spec_step(l: ControlLoop, ev: LoopEvent) -> (ControlLoop, LoopAction) {
    match ev {
        LoopEvent::Sample(opt) => {
            match opt {
                None => (
                    ControlLoop { mode: LoopMode::AwaitingPoll, ..l },
                    LoopAction::Wait(l.check_period_seconds),
                ),
                Some(z) => {
                    let f2 = spec_processed(l.filter, z);
                    let brightness = map_milli(l.curve@, f2.x as int / SCALE as int);
                    let q = l.quantizer;
                    if q.emits(brightness) {
                        let t = q.target(brightness);
                        (
                            ControlLoop {
                                filter: f2,
                                quantizer: DiscreteValue { current: Some(t as u32), ..q },
                                mode: LoopMode::AwaitingPoll,
                                ..l
                            },
                            LoopAction::WriteThenWait(
                                spec_level(
                                    q.min_level as int,
                                    q.max_level as int,
                                    q.steps as int,
                                    t,
                                ) as u32,
                                l.check_period_seconds,
                            ),
                        )
                    } else {
                        (
                            ControlLoop { filter: f2, mode: LoopMode::AwaitingPoll, ..l },
                            LoopAction::Wait(l.check_period_seconds),
                        )
                    }
                },
            }
        },
        LoopEvent::Poll(fired) => {
            match l.mode {
                LoopMode::AwaitingPoll => {
                    if fired {
                        (
                            ControlLoop { mode: LoopMode::Paused, ..l },
                            LoopAction::Wait(PAUSED_POLL_SECONDS),
                        )
                    } else {
                        (ControlLoop { mode: LoopMode::Active, ..l }, LoopAction::ReadSensor)
                    }
                },
                LoopMode::Paused => {
                    if fired {
                        (ControlLoop { mode: LoopMode::Active, ..l }, LoopAction::ReadSensor)
                    } else {
                        (l, LoopAction::Wait(PAUSED_POLL_SECONDS))
                    }
                },
                LoopMode::Active => (l, LoopAction::Wait(l.check_period_seconds)),
            }
        },
    }
}

/// A finite run: the final state and the actions requested, one per
/// occurrence.
pub open spec fn spec_run(l: ControlLoop, events: Seq<LoopEvent>) -> (ControlLoop, Seq<LoopAction>)
    decreases events.len(),
{
    if events.len() == 0 {
        (l, Seq::empty())
    } else {
        let first = spec_step(l, events[0]);
        let rest = spec_run(first.0, events.drop_first());
        (rest.0, seq![first.1] + rest.1)
    }
}

/// Each occurrence of the run is of the kind its mode then expects.
pub open spec fn events_ok(l: ControlLoop, events: Seq<LoopEvent>) -> bool
    decreases events.len(),
{
    events.len() == 0 || (expects(l.mode, events[0]) && events_ok(
        spec_step(l, events[0]).0,
        events.drop_first(),
    ))
}

impl ControlLoop {
    pub open spec fn wf(self) -> bool {
        &&& self.filter.wf()
        &&& self.curve.wf()
        &&& self.quantizer.wf()
    }

    /// A fresh controller starts active, about to take its first sample.
    pub fn new(
        filter: Kalman,
        curve: LightConvertor,
        quantizer: DiscreteValue,
        check_period_seconds: u64,
    ) -> (l: ControlLoop)
        requires
            filter.wf(),
            curve.wf(),
            quantizer.wf(),
        ensures
            l.wf(),
            l == (ControlLoop {
                filter,
                curve,
                quantizer,
                check_period_seconds,
                mode: LoopMode::Active,
            }),
    {
        ControlLoop { filter, curve, quantizer, check_period_seconds, mode: LoopMode::Active }
    }

    /// Consumes one occurrence and answers with the next piece of outside
    /// work. A failed read skips the cycle's pipeline entirely; a pause
    /// event parks the loop on long polls until the next event resumes it.
    pub fn step(&mut self, ev: LoopEvent) -> (act: LoopAction)
        requires
            old(self).wf(),
            expects(old(self).mode, ev),
        ensures
            final(self).wf(),
            *final(self) == spec_step(*old(self), ev).0,
            act == spec_step(*old(self), ev).1,
    {
        match ev {
            LoopEvent::Sample(opt) => {
                self.mode = LoopMode::AwaitingPoll;
                match opt {
                    None => LoopAction::Wait(self.check_period_seconds),
                    Some(z) => {
                        let est = self.filter.process(z);
                        let ill = (est / SCALE as u64) as u32;
                        let brightness = self.curve.get_light(ill);
                        match self.quantizer.update(brightness) {
                            Some(level) => LoopAction::WriteThenWait(
                                level,
                                self.check_period_seconds,
                            ),
                            None => LoopAction::Wait(self.check_period_seconds),
                        }
                    },
                }
            },
            LoopEvent::Poll(fired) => {
                match self.mode {
                    LoopMode::AwaitingPoll => {
                        if fired {
                            self.mode = LoopMode::Paused;
                            LoopAction::Wait(PAUSED_POLL_SECONDS)
                        } else {
                            self.mode = LoopMode::Active;
                            LoopAction::ReadSensor
                        }
                    },
                    LoopMode::Paused => {
                        if fired {
                            self.mode = LoopMode::Active;
                            LoopAction::ReadSensor
                        } else {
                            LoopAction::Wait(PAUSED_POLL_SECONDS)
                        }
                    },
                    LoopMode::Active => LoopAction::Wait(self.check_period_seconds),
                }
            },
        }
    }
}

/// Replays a finite run of occurrences through the controller, collecting
/// the requested actions. The live process does the same one occurrence at
/// a time, performing each action as it is handed out.
pub fn main_loop(l: &mut ControlLoop, events: &Vec<LoopEvent>) -> (acts: Vec<LoopAction>)
    requires
        old(l).wf(),
        events_ok(*old(l), events@),
    ensures
        final(l).wf(),
        *final(l) == spec_run(*old(l), events@).0,
        acts@ == spec_run(*old(l), events@).1,
{
    let ghost l0 = *l;
    proof {
        assert(events@.skip(0) =~= events@);
    }
    let mut acts: Vec<LoopAction> = Vec::new();
    let n = events.len();
    let mut i: usize = 0;
    while i < n
        invariant
            i <= n == events@.len(),
            l.wf(),
            events_ok(*l, events@.skip(i as int)),
            spec_run(l0, events@).0 == spec_run(*l, events@.skip(i as int)).0,
            spec_run(l0, events@).1 == acts@ + spec_run(*l, events@.skip(i as int)).1,
        decreases n - i,
    {
        let ghost pre = *l;
        let act = l.step(events[i]);
        acts.push(act);
        proof {
            assert(events@.skip(i as int)[0] == events@[i as int]);
            assert(events@.skip(i as int).drop_first() =~= events@.skip(i as int + 1));
            assert(spec_run(pre, events@.skip(i as int)).1 == seq![act] + spec_run(
                *l,
                events@.skip(i as int + 1),
            ).1);
            assert(acts@ + spec_run(*l, events@.skip(i as int + 1)).1 =~= spec_run(
                l0,
                events@,
            ).1);
        }
        i = i + 1;
    }
    proof {
        assert(events@.skip(n as int) =~= Seq::<LoopEvent>::empty());
        assert(acts@ + Seq::<LoopAction>::empty() =~= acts@);
    }
    acts
}

/// Law: a failed sensor read never halts the loop. The cycle's pipeline is
/// skipped — filter and quantizer keep their state — and after the cadence
/// poll passes without an event, the loop asks to read the sensor again.
pub proof fn lemma_read_failure_does_not_halt(l: ControlLoop)
    requires
        l.wf(),
        l.mode is Active,
    ensures
        ({
            let after_fail = spec_step(l, LoopEvent::Sample(None::<u32>));
            let after_poll = spec_step(after_fail.0, LoopEvent::Poll(false));
            &&& after_fail.1 == LoopAction::Wait(l.check_period_seconds)
            &&& after_fail.0.filter == l.filter
            &&& after_fail.0.quantizer == l.quantizer
            &&& after_poll.1 == LoopAction::ReadSensor
            &&& after_poll.0.mode is Active
        }),
{
}

/// Law: end to end, rising illuminance cannot lower the backlight. On a
/// curve whose light values never decrease, two sampled cycles in a row on
/// samples `z1 <= z2` — the estimate starting at or below `z1` — emit
/// non-decreasing actuator levels; over a whole rising ramp this chains
/// into a non-decreasing level sequence, each level inside
/// `[min_level, max_level]` by the quantizer's contract.
pub proof fn lemma_rising_samples_keep_levels_rising(l: ControlLoop, z1: u32, z2: u32)
    requires
        l.wf(),
        crate::light::lights_sorted(l.curve@),
        l.filter.x <= z1 as int * SCALE,
        z1 <= z2,
    ensures
        ({
            let c1 = spec_step(l, LoopEvent::Sample(Some(z1)));
            let c2 = spec_step(c1.0, LoopEvent::Sample(Some(z2)));
            match (c1.1, c2.1) {
                (LoopAction::WriteThenWait(v1, _), LoopAction::WriteThenWait(v2, _)) => v1
                    <= v2,
                _ => true,
            }
        }),
{
    let min = l.quantizer.min_level as int;
    let max = l.quantizer.max_level as int;
    let steps = l.quantizer.steps as int;
    let f1 = spec_processed(l.filter, z1);
    crate::kalman::lemma_estimate_moves_toward_sample(l.filter, z1);
    crate::kalman::lemma_processed_wf(l.filter, z1);
    let f2 = spec_processed(f1, z2);
    crate::kalman::lemma_estimate_moves_toward_sample(f1, z2);
    crate::kalman::lemma_processed_wf(f1, z2);
    assert(f1.x <= f2.x);
    vstd::arithmetic::div_mod::lemma_div_is_ordered(f1.x as int, f2.x as int, SCALE as int);
    vstd::arithmetic::div_mod::lemma_div_pos_is_pos(f1.x as int, SCALE as int);
    let b1 = map_milli(l.curve@, f1.x as int / SCALE as int);
    let b2 = map_milli(l.curve@, f2.x as int / SCALE as int);
    crate::light::lemma_map_monotone(
        l.curve@,
        f1.x as int / SCALE as int,
        f2.x as int / SCALE as int,
    );
    let t1 = l.quantizer.target(b1);
    let t2 = l.quantizer.target(b2);
    crate::discrete_value::lemma_target_monotone(min, max, steps, b1, b2);
    crate::discrete_value::lemma_target_range(min, max, steps, b1);
    crate::discrete_value::lemma_target_range(min, max, steps, b2);
    crate::discrete_value::lemma_level_monotone(min, max, steps, t1, t2);
    crate::discrete_value::lemma_level_range(min, max, steps, t1);
    crate::discrete_value::lemma_level_range(min, max, steps, t2);
}

/// Law: a pause suspends sampling. The pause event parks the loop in
/// `Paused` with a long poll; while no further event arrives the loop only
/// keeps polling — it asks for no sensor read and no actuator write — and
/// the next event resumes sampling.
pub proof fn lemma_pause_suspends_sampling(l: ControlLoop, p: ControlLoop)
    requires
        l.wf(),
        l.mode is AwaitingPoll,
        p.wf(),
        p.mode is Paused,
    ensures
        ({
            let paused = spec_step(l, LoopEvent::Poll(true));
            &&& paused.0.mode is Paused
            &&& paused.1 == LoopAction::Wait(PAUSED_POLL_SECONDS)
        }),
        ({
            let waiting = spec_step(p, LoopEvent::Poll(false));
            &&& waiting.0 == p
            &&& waiting.1 == LoopAction::Wait(PAUSED_POLL_SECONDS)
        }),
        ({
            let resumed = spec_step(p, LoopEvent::Poll(true));
            &&& resumed.0.mode is Active
            &&& resumed.1 == LoopAction::ReadSensor
        }),
{
}

/// A run requests exactly one action per occurrence.
pub proof fn lemma_run_length(l: ControlLoop, events: Seq<LoopEvent>)
    ensures
        spec_run(l, events).1.len() == events.len(),
    decreases events.len(),
{
    if events.len() > 0 {
        lemma_run_length(spec_step(l, events[0]).0, events.drop_first());
    }
}

/// Law (over whole runs): while the loop is paused, polls that bring no
/// event leave it paused and produce nothing but long waits — no sensor
/// read and no actuator write is requested anywhere in the run.
pub proof fn lemma_paused_run_only_waits(l: ControlLoop, events: Seq<LoopEvent>)
    requires
        l.mode is Paused,
        forall|i: int| 0 <= i < events.len() ==> events[i] == LoopEvent::Poll(false),
    ensures
        spec_run(l, events).0 == l,
        forall|i: int|
            0 <= i < events.len() ==> spec_run(l, events).1[i] == LoopAction::Wait(
                PAUSED_POLL_SECONDS,
            ),
    decreases events.len(),
{
    if events.len() > 0 {
        assert(events[0] == LoopEvent::Poll(false));
        assert(spec_step(l, events[0]).0 == l);
        lemma_paused_run_only_waits(l, events.drop_first());
        lemma_run_length(l, events.drop_first());
        assert forall|i: int| 0 <= i < events.len() implies spec_run(l, events).1[i]
            == LoopAction::Wait(PAUSED_POLL_SECONDS) by {
            if i > 0 {
                assert(events.drop_first()[i - 1] == events[i]);
                assert(spec_run(l, events).1[i] == spec_run(l, events.drop_first()).1[i - 1]);
            }
        }
    }
}

} // verus!
