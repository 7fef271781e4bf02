//! Sampler bridge state: the status record shared with the interactive
//! reader, and the per-iteration decisions of the background sampling loop —
//! interval accounting, trace filtering, snapshot-publication throttling and
//! the debounced late-sample warning.
//!
//! All durations and instants are carried as whole milliseconds.

use crate::flame::FrameKey;
use vstd::prelude::*;

verus! {

/// Lifecycle of the background sampler.  `Running` is the only
/// non-terminal state; `Error` and `Done` are absorbing.
#[derive(Clone, Debug)]
pub enum SamplerStatus {
    Running,
    Error(String),
    Done,
}

impl SamplerStatus {
    /// A terminal status never changes again and publishes nothing.
    pub open spec fn is_terminal(self) -> bool {
        !(self is Running)
    }
}

impl Default for SamplerStatus {
    fn default() -> (r: Self)
        ensures
            r is Running,
    {
        SamplerStatus::Running
    }
}

/// The status record the sampler publishes for the reader: current status,
/// elapsed sampled duration, and the latest late-sample warning, if any.
#[derive(Clone, Debug)]
pub struct SamplerState {
    pub status: SamplerStatus,
    pub total_sampled_duration_ms: u64,
    pub late_ms: Option<u64>,
}

impl SamplerState {
    pub fn new() -> (r: SamplerState)
        ensures
            r.status is Running,
            r.total_sampled_duration_ms == 0,
            r.late_ms is None,
    {
        SamplerState { status: SamplerStatus::Running, total_sampled_duration_ms: 0, late_ms: None }
    }

    pub fn set_status(&mut self, status: SamplerStatus)
        ensures
            final(self).status == status,
            final(self).total_sampled_duration_ms == old(self).total_sampled_duration_ms,
            final(self).late_ms == old(self).late_ms,
    {
        self.status = status;
    }

    pub fn set_total_sampled_duration(&mut self, total_sampled_duration_ms: u64)
        ensures
            final(self).total_sampled_duration_ms == total_sampled_duration_ms,
            final(self).status == old(self).status,
            final(self).late_ms == old(self).late_ms,
    {
        self.total_sampled_duration_ms = total_sampled_duration_ms;
    }

    pub fn set_late(&mut self, late_ms: u64)
        ensures
            final(self).late_ms == Some(late_ms),
            final(self).status == old(self).status,
            final(self).total_sampled_duration_ms == old(self).total_sampled_duration_ms,
    {
        self.late_ms = Some(late_ms);
    }

    pub fn unset_late(&mut self)
        ensures
            final(self).late_ms is None,
            final(self).status == old(self).status,
            final(self).total_sampled_duration_ms == old(self).total_sampled_duration_ms,
    {
        self.late_ms = None;
    }
}

impl Default for SamplerState {
    fn default() -> (r: Self)
        ensures
            r.status is Running,
            r.total_sampled_duration_ms == 0,
            r.late_ms is None,
    {
        SamplerState::new()
    }
}

/// The immutable handoff unit across the concurrency boundary: the folded
/// trace data rendered by the sampler, installed whole in the shared cell.
#[derive(Clone, Debug)]
pub struct ProfilerOutput {
    pub data: String,
}

/// Configuration of a live sampling run.
#[derive(Clone, Debug)]
pub struct SamplerConfig {
    pub sampling_rate: u64,
    /// `None` records without limit; `Some(s)` stops after `s` seconds'
    /// worth of sampling intervals.
    pub duration_secs: Option<u64>,
    pub include_idle: bool,
    pub gil_only: bool,
    pub include_thread_ids: bool,
    pub show_line_numbers: bool,
}

impl SamplerConfig {
    /// How many sampling intervals the run may take, `None` for unlimited.
    pub fn max_intervals(&self) -> (r: Option<u64>)
        requires
            self.duration_secs is Some ==> self.duration_secs->0 * self.sampling_rate
                <= u64::MAX,
        ensures
            self.duration_secs is None ==> r is None,
            self.duration_secs is Some ==> r == Some(
                (self.duration_secs->0 * self.sampling_rate) as u64,
            ),
    {
        match self.duration_secs {
            None => None,
            Some(secs) => Some(secs * self.sampling_rate),
        }
    }

    /// Is a sampled thread aggregated?  Idle threads only with
    /// `include_idle`; threads without the interpreter lock are dropped
    /// under `gil_only`.
    pub fn should_include_trace(&self, active: bool, owns_gil: bool) -> (r: bool)
        ensures
            r == ((self.include_idle || active) && (!self.gil_only || owns_gil)),
    {
        (self.include_idle || active) && (!self.gil_only || owns_gil)
    }
}

/// Threshold above which a sampling delay is surfaced as a late warning.
pub const LATE_THRESHOLD_MS: u64 = 1000;

/// Minimum spacing of two late warnings.
pub const LATE_DEBOUNCE_MS: u64 = 1000;

/// Minimum spacing of two snapshot publications.
pub const PUBLISH_INTERVAL_MS: u64 = 250;

/// What one iteration does about the late-sample warning.
#[derive(Clone, Copy, Debug, PartialEq, Eq, Structural)]
pub enum LateAction {
    /// Publish a warning carrying the observed delay and reset the debounce
    /// clock.
    Warn(u64),
    /// Delay at or below the threshold (or none): clear any warning.
    Clear,
    /// Above the threshold but inside the debounce window: leave the
    /// warning as it stands.
    Hold,
}

/// Late-warning policy: a delay above one second warns, debounced to at
/// most one warning per second of wall-clock time; a delay at or below the
/// threshold clears the warning.
pub open spec fn late_decision(delay_ms: Option<u64>, now_ms: u64, last_warn_ms: Option<u64>) -> LateAction {
    match delay_ms {
        Some(d) => if d > LATE_THRESHOLD_MS {
            match last_warn_ms {
                None => LateAction::Warn(d),
                Some(l) => if now_ms - l > LATE_DEBOUNCE_MS {
                    LateAction::Warn(d)
                } else {
                    LateAction::Hold
                },
            }
        } else {
            LateAction::Clear
        },
        None => LateAction::Clear,
    }
}

/// Publication throttle: at most one snapshot per 250 ms, and always a
/// first one.
pub open spec fn publish_decision(last_publish_ms: Option<u64>, now_ms: u64) -> bool {
    match last_publish_ms {
        None => true,
        Some(l) => now_ms - l >= PUBLISH_INTERVAL_MS,
    }
}

/// Two late events above the threshold falling in the same one-second
/// window yield exactly one warning: after the first warns at `t1`, the
/// second is held.
pub proof fn lemma_late_debounce(d1: u64, d2: u64, t1: u64, t2: u64, last0: Option<u64>)
    requires
        late_decision(Some(d1), t1, last0) is Warn,
        d2 > LATE_THRESHOLD_MS,
        t1 <= t2,
        t2 - t1 <= LATE_DEBOUNCE_MS,
    ensures
        late_decision(Some(d2), t2, Some(t1)) is Hold,
{
}

/// The display name of a synthesized thread-label frame.
pub open spec fn thread_label_text(threadid: Seq<char>, thread_name: Option<Seq<char>>) -> Seq<
    char,
> {
    match thread_name {
        Some(n) => "thread ("@ + threadid + "): "@ + n,
        None => "thread ("@ + threadid + seq![')'],
    }
}

/// The synthetic frame appended per trace when thread ids are shown: a
/// label carrying the thread id and, when known, its name.
pub fn thread_label_frame(threadid: &str, thread_name: Option<&str>) -> (r: FrameKey)
    ensures
        r.name@ == thread_label_text(
            threadid@,
            match thread_name {
                Some(n) => Some(n@),
                None => None,
            },
        ),
        r.file@ == Seq::<char>::empty(),
        r.line == 0,
{
    proof {
        reveal_strlit("thread (");
        reveal_strlit("): ");
        reveal_strlit(")");
    }
    let mut name = String::from_str("thread (");
    name.append(threadid);
    match thread_name {
        Some(n) => {
            name.append("): ");
            name.append(n);
        },
        None => {
            name.append(")");
            proof {
                assert(name@ =~= "thread ("@ + threadid@ + seq![')']);
            }
        },
    }
    FrameKey { name, file: String::new(), line: 0 }
}

/// One action bundle handed back to the loop that drives the sampler: what
/// to do before the next batch is pulled.
#[derive(Clone, Debug)]
pub struct StepActions {
    /// Install a fresh snapshot in the shared cell.
    pub publish_snapshot: bool,
    /// Publish a late warning with this delay.
    pub set_late: Option<u64>,
    /// Clear the late warning.
    pub clear_late: bool,
    /// Aggregate the traces of this batch (false once stopped).
    pub aggregate: bool,
    /// Leave the loop; the status field holds the terminal state.
    pub stop: bool,
}

/// One observation handed to the bridge per loop iteration.
#[derive(Clone, Debug)]
pub enum BridgeEvent {
    /// A timed batch arrived at `now_ms`, `delay_ms` behind schedule if
    /// late.
    Sample { now_ms: u64, delay_ms: Option<u64> },
    /// The sampling capability is exhausted.
    SourceExhausted,
    /// The sampling capability failed for good; the diagnostic is kept.
    SourceFailed(String),
}

/// The decision state of the sampler bridge: everything the loop carries
/// between iterations except the tree itself.
#[derive(Clone, Debug)]
pub struct SamplerBridge {
    pub status: SamplerStatus,
    pub intervals: u64,
    pub max_intervals: Option<u64>,
    pub last_warn_ms: Option<u64>,
    pub last_publish_ms: Option<u64>,
}

impl SamplerBridge {
    pub fn new(max_intervals: Option<u64>) -> (r: SamplerBridge)
        ensures
            r.status is Running,
            r.intervals == 0,
            r.max_intervals == max_intervals,
            r.last_warn_ms is None,
            r.last_publish_ms is None,
    {
        SamplerBridge {
            status: SamplerStatus::Running,
            intervals: 0,
            max_intervals,
            last_warn_ms: None,
            last_publish_ms: None,
        }
    }

    /// Process one loop observation.  Terminal states absorb every event:
    /// nothing is published, nothing is aggregated, the status never moves
    /// again.  While running, a failure turns into `Error`, exhaustion or a
    /// reached interval limit into `Done`, and a normal batch drives the
    /// late-warning and publication policies.
    pub fn step(&mut self, event: &BridgeEvent) -> (a: StepActions)
        ensures
            final(self).max_intervals == old(self).max_intervals,
            // terminal states are absorbing and silent
            old(self).status.is_terminal() ==> final(self).status == old(self).status
                && !a.publish_snapshot && a.set_late is None && !a.clear_late && !a.aggregate
                && a.stop,
            // the only transitions out of Running are Error and Done
            old(self).status is Running ==> match event {
                BridgeEvent::SourceFailed(m) => final(self).status == SamplerStatus::Error(*m)
                    && a.stop && !a.publish_snapshot && !a.aggregate,
                BridgeEvent::SourceExhausted => final(self).status is Done && a.stop
                    && !a.publish_snapshot && !a.aggregate,
                BridgeEvent::Sample { now_ms, delay_ms } => {
                    &&& final(self).intervals == (if old(self).intervals < u64::MAX {
                        old(self).intervals + 1
                    } else {
                        old(self).intervals as int
                    })
                    &&& (match old(self).max_intervals {
                        Some(m) => (final(self).status is Done <==> final(self).intervals >= m)
                            && (a.stop <==> final(self).intervals >= m),
                        None => final(self).status is Running && !a.stop,
                    })
                    &&& (final(self).status is Running || final(self).status is Done)
                    // the late policy
                    &&& (a.set_late == (match late_decision(
                        *delay_ms,
                        *now_ms,
                        old(self).last_warn_ms,
                    ) {
                        LateAction::Warn(d) => Some(d),
                        _ => None::<u64>,
                    }))
                    &&& (a.clear_late <==> late_decision(
                        *delay_ms,
                        *now_ms,
                        old(self).last_warn_ms,
                    ) is Clear)
                    &&& (final(self).last_warn_ms == (if late_decision(
                        *delay_ms,
                        *now_ms,
                        old(self).last_warn_ms,
                    ) is Warn {
                        Some(*now_ms)
                    } else {
                        old(self).last_warn_ms
                    }))
                    // the publication policy: no snapshot once stopped
                    &&& (a.publish_snapshot <==> !a.stop && publish_decision(
                        old(self).last_publish_ms,
                        *now_ms,
                    ))
                    &&& (final(self).last_publish_ms == (if a.publish_snapshot {
                        Some(*now_ms)
                    } else {
                        old(self).last_publish_ms
                    }))
                    &&& (a.aggregate <==> !a.stop)
                },
            },
    {
        match &self.status {
            SamplerStatus::Running => {},
            _ => {
                return StepActions {
                    publish_snapshot: false,
                    set_late: None,
                    clear_late: false,
                    aggregate: false,
                    stop: true,
                };
            },
        }
        match event {
            BridgeEvent::SourceFailed(m) => {
                self.status = SamplerStatus::Error(m.clone());
                StepActions {
                    publish_snapshot: false,
                    set_late: None,
                    clear_late: false,
                    aggregate: false,
                    stop: true,
                }
            },
            BridgeEvent::SourceExhausted => {
                self.status = SamplerStatus::Done;
                StepActions {
                    publish_snapshot: false,
                    set_late: None,
                    clear_late: false,
                    aggregate: false,
                    stop: true,
                }
            },
            BridgeEvent::Sample { now_ms, delay_ms } => {
                let now = *now_ms;
                let mut set_late: Option<u64> = None;
                let mut clear_late = false;
                match delay_ms {
                    Some(d) => {
                        if *d > 1000 {
                            let warn = match self.last_warn_ms {
                                None => true,
                                Some(l) => now > 1000 && now - 1000 > l,
                            };
                            if warn {
                                set_late = Some(*d);
                                self.last_warn_ms = Some(now);
                            }
                        } else {
                            clear_late = true;
                        }
                    },
                    None => {
                        clear_late = true;
                    },
                }
                if self.intervals < u64::MAX {
                    self.intervals = self.intervals + 1;
                }
                let stop = match self.max_intervals {
                    Some(m) => self.intervals >= m,
                    None => false,
                };
                if stop {
                    self.status = SamplerStatus::Done;
                }
                let publish = !stop && match self.last_publish_ms {
                    None => true,
                    Some(l) => now >= 250 && now - 250 >= l,
                };
                if publish {
                    self.last_publish_ms = Some(now);
                }
                StepActions {
                    publish_snapshot: publish,
                    set_late,
                    clear_late,
                    aggregate: !stop,
                    stop,
                }
            },
        }
    }
}

} // verus!
